//! The handshake of the stdio helper: versions, capabilities, limits and the
//! encoding of messages.
//!
//! A message is a kind followed by a body. Numbers have a fixed width, the
//! highest byte first, and text is preceded by its length in bytes.

use crate::text::{decimal, text_from_bytes};
use crate::wire::{push_be16, push_be32, read_be16, read_be32};
use vstd::prelude::*;
use vstd::slice::slice_subrange;

verus! {

/// The number of the first protocol version.
pub const INITIAL_PROTOCOL_VERSION: u16 = 1;

/// The number of the protocol version that this library speaks.
pub const CURRENT_PROTOCOL_VERSION: u16 = INITIAL_PROTOCOL_VERSION;

/// Version of this library.
pub const PACKAGE_VERSION: &'static str = "0.1.0";

/// A version of the wire protocol, which is independent of the library's own.
#[derive(Debug, Clone, Copy, PartialEq, Eq, PartialOrd, Ord, Hash, Structural)]
pub struct ProtocolVersion(pub u16);

impl ProtocolVersion {
    pub fn new(value: u16) -> (version: Self)
        ensures
            version == ProtocolVersion(value),
    {
        ProtocolVersion(value)
    }

    pub fn as_u16(self) -> (value: u16)
        ensures
            value == self.0,
    {
        self.0
    }

    /// The version in decimal.
    pub fn to_string(&self) -> (text: String)
        ensures
            text@ == crate::text::decimal_text(self.0 as nat),
    {
        decimal(self.0 as u64)
    }
}

/// Why a handshake or a message is refused.
#[derive(Debug, Clone, Copy, PartialEq, Eq)]
pub enum ProtocolError {
    /// A version range ends before it starts.
    InvalidVersionRange { min: ProtocolVersion, max: ProtocolVersion },
    /// A limit is zero.
    InvalidLimit { field: &'static str, value: u32 },
    /// Both peers claim the same role.
    IncompatibleRoles { local: PeerRole, remote: PeerRole },
    /// The version ranges do not overlap.
    NoSharedVersion { local: VersionRange, remote: VersionRange },
    /// A capability is not shared by both peers.
    MissingRequiredCapability { capability: Capability },
    /// A role has no meaning.
    UnknownPeerRole { value: u8 },
    /// A capability has no meaning.
    UnknownCapabilityId { id: u16 },
    /// A message kind has no meaning.
    UnknownMessageKind { kind: u16 },
    /// A field does not fit its length prefix.
    FieldTooLarge { message: &'static str, field: &'static str, len: usize },
    /// A message ends before a field does.
    TruncatedMessage { message: &'static str, field: &'static str },
    /// A text field is not well-formed UTF-8.
    InvalidTextField { message: &'static str, field: &'static str },
}

/// What a refusal says.
pub enum Refusal {
    InvalidVersionRange { min: ProtocolVersion, max: ProtocolVersion },
    InvalidLimit { field: Seq<char>, value: u32 },
    IncompatibleRoles { local: PeerRole, remote: PeerRole },
    NoSharedVersion { local: (u16, u16), remote: (u16, u16) },
    MissingRequiredCapability { capability: Capability },
    UnknownPeerRole { value: u8 },
    UnknownCapabilityId { id: u16 },
    UnknownMessageKind { kind: u16 },
    FieldTooLarge { message: Seq<char>, field: Seq<char>, len: int },
    TruncatedMessage { message: Seq<char>, field: Seq<char> },
    InvalidTextField { message: Seq<char>, field: Seq<char> },
}

impl View for ProtocolError {
    type V = Refusal;

    open spec fn view(&self) -> Refusal {
        match self {
            ProtocolError::InvalidVersionRange { min, max } => Refusal::InvalidVersionRange {
                min: *min,
                max: *max,
            },
            ProtocolError::InvalidLimit { field, value } => Refusal::InvalidLimit {
                field: field@,
                value: *value,
            },
            ProtocolError::IncompatibleRoles { local, remote } => Refusal::IncompatibleRoles {
                local: *local,
                remote: *remote,
            },
            ProtocolError::NoSharedVersion { local, remote } => Refusal::NoSharedVersion {
                local: local@,
                remote: remote@,
            },
            ProtocolError::MissingRequiredCapability { capability } => {
                Refusal::MissingRequiredCapability { capability: *capability }
            },
            ProtocolError::UnknownPeerRole { value } => Refusal::UnknownPeerRole { value: *value },
            ProtocolError::UnknownCapabilityId { id } => Refusal::UnknownCapabilityId { id: *id },
            ProtocolError::UnknownMessageKind { kind } => Refusal::UnknownMessageKind {
                kind: *kind,
            },
            ProtocolError::FieldTooLarge { message, field, len } => Refusal::FieldTooLarge {
                message: message@,
                field: field@,
                len: *len as int,
            },
            ProtocolError::TruncatedMessage { message, field } => Refusal::TruncatedMessage {
                message: message@,
                field: field@,
            },
            ProtocolError::InvalidTextField { message, field } => Refusal::InvalidTextField {
                message: message@,
                field: field@,
            },
        }
    }
}

/// The versions from `min` to `max`, both included, that a peer supports.
#[derive(Debug, Clone, Copy, PartialEq, Eq)]
pub struct VersionRange {
    min: ProtocolVersion,
    max: ProtocolVersion,
}

impl View for VersionRange {
    type V = (u16, u16);

    closed spec fn view(&self) -> (u16, u16) {
        (self.min.0, self.max.0)
    }
}

/// The highest version in both ranges.
pub open spec fn shared_version(left: (u16, u16), right: (u16, u16)) -> Option<u16> {
    let min = if left.0 >= right.0 {
        left.0
    } else {
        right.0
    };
    let max = if left.1 <= right.1 {
        left.1
    } else {
        right.1
    };
    if min <= max {
        Some(max)
    } else {
        None
    }
}

/// Whether a range holds a version.
pub open spec fn in_range(version: u16, range: (u16, u16)) -> bool {
    range.0 <= version <= range.1
}

/// The shared version of two ranges is in both, and no higher one is. There is
/// none exactly when the ranges have no version in common.
pub proof fn lemma_shared_version_is_highest(left: (u16, u16), right: (u16, u16))
    ensures
        match shared_version(left, right) {
            Some(version) => {
                &&& in_range(version, left) && in_range(version, right)
                &&& forall|other: u16|
                    in_range(other, left) && in_range(other, right) ==> other <= version
            },
            None => forall|other: u16| !(in_range(other, left) && in_range(other, right)),
        },
{
}

/// It does not matter which peer asks for the shared version.
pub proof fn lemma_shared_version_is_symmetric(left: (u16, u16), right: (u16, u16))
    ensures
        shared_version(left, right) == shared_version(right, left),
{
}

impl VersionRange {
    #[verifier::type_invariant]
    spec fn ordered(self) -> bool {
        self.min.0 <= self.max.0
    }

    /// The range from `min` to `max`.
    pub fn new(min: ProtocolVersion, max: ProtocolVersion) -> (range: Result<Self, ProtocolError>)
        ensures
            if min.0 <= max.0 {
                range matches Ok(found) && found@ == (min.0, max.0)
            } else {
                range == Err::<Self, ProtocolError>(ProtocolError::InvalidVersionRange { min, max })
            },
    {
        if min.0 > max.0 {
            return Err(ProtocolError::InvalidVersionRange { min, max });
        }
        Ok(VersionRange { min, max })
    }

    /// The range of one version.
    pub fn exact(version: ProtocolVersion) -> (range: Self)
        ensures
            range@ == (version.0, version.0),
    {
        VersionRange { min: version, max: version }
    }

    pub fn min(self) -> (version: ProtocolVersion)
        ensures
            version.0 == self@.0,
            self@.0 <= self@.1,
    {
        proof {
            use_type_invariant(&self);
        }
        self.min
    }

    pub fn max(self) -> (version: ProtocolVersion)
        ensures
            version.0 == self@.1,
            self@.0 <= self@.1,
    {
        proof {
            use_type_invariant(&self);
        }
        self.max
    }

    /// The highest version that this range and `other` share.
    pub fn highest_shared(self, other: Self) -> (version: Option<ProtocolVersion>)
        ensures
            version == match shared_version(self@, other@) {
                Some(shared) => Some(ProtocolVersion(shared)),
                None => None,
            },
    {
        let min: u16 = if self.min.0 >= other.min.0 {
            self.min.0
        } else {
            other.min.0
        };
        let max: u16 = if self.max.0 <= other.max.0 {
            self.max.0
        } else {
            other.max.0
        };
        if min <= max {
            Some(ProtocolVersion(max))
        } else {
            None
        }
    }

    /// The range in writing, such as `1..=3`.
    pub fn to_string(&self) -> (text: String)
        ensures
            text@ == crate::text::decimal_text(self@.0 as nat) + "..="@
                + crate::text::decimal_text(self@.1 as nat),
    {
        let mut text = self.min.to_string();
        text.append("..=");
        text.append(self.max.to_string().as_str());
        text
    }
}

/// What a peer is in a session.
#[derive(Debug, Clone, Copy, PartialEq, Eq, Structural)]
pub enum PeerRole {
    Coordinator,
    Helper,
}

/// The number of a role on the wire.
pub open spec fn role_id(role: PeerRole) -> u8 {
    match role {
        PeerRole::Coordinator => 1,
        PeerRole::Helper => 2,
    }
}

/// The role with the given number.
pub open spec fn role_with(value: u8) -> Result<PeerRole, Refusal> {
    if value == 1 {
        Ok(PeerRole::Coordinator)
    } else if value == 2 {
        Ok(PeerRole::Helper)
    } else {
        Err(Refusal::UnknownPeerRole { value })
    }
}

impl PeerRole {
    /// The role with the given number on the wire.
    pub fn from_wire(value: u8) -> (role: Result<Self, ProtocolError>)
        ensures
            match role_with(value) {
                Ok(expected) => role == Ok::<Self, ProtocolError>(expected),
                Err(refusal) => role matches Err(error) && error@ == refusal,
            },
    {
        match value {
            1 => Ok(PeerRole::Coordinator),
            2 => Ok(PeerRole::Helper),
            _ => Err(ProtocolError::UnknownPeerRole { value }),
        }
    }

    /// The number of the role on the wire.
    pub fn wire_id(self) -> (value: u8)
        ensures
            value == role_id(self),
    {
        match self {
            PeerRole::Coordinator => 1,
            PeerRole::Helper => 2,
        }
    }

    /// The role in words.
    pub fn to_string(&self) -> (text: String)
        ensures
            text@ == match self {
                PeerRole::Coordinator => "coordinator"@,
                PeerRole::Helper => "helper"@,
            },
    {
        match self {
            PeerRole::Coordinator => "coordinator".to_string(),
            PeerRole::Helper => "helper".to_string(),
        }
    }
}

/// The program that a peer runs.
#[derive(Debug, PartialEq, Eq)]
pub struct ImplementationInfo {
    pub name: String,
    pub version: String,
}

impl View for ImplementationInfo {
    type V = (Seq<char>, Seq<char>);

    open spec fn view(&self) -> (Seq<char>, Seq<char>) {
        (self.name@, self.version@)
    }
}

impl Clone for ImplementationInfo {
    fn clone(&self) -> (copy: Self)
        ensures
            copy@ == self@,
    {
        ImplementationInfo { name: self.name.clone(), version: self.version.clone() }
    }
}

impl ImplementationInfo {
    pub fn new(name: &str, version: &str) -> (info: Self)
        ensures
            info@ == (name@, version@),
    {
        ImplementationInfo { name: name.to_owned(), version: version.to_owned() }
    }

    /// The name and the version in writing.
    pub fn to_string(&self) -> (text: String)
        ensures
            text@ == self.name@ + " "@ + self.version@,
    {
        let mut text = self.name.clone();
        text.append(" ");
        text.append(self.version.as_str());
        text
    }
}

/// The implementation that this library is.
pub fn current_implementation() -> (info: ImplementationInfo)
    ensures
        info@ == ("oni"@, PACKAGE_VERSION@),
{
    ImplementationInfo::new("oni", PACKAGE_VERSION)
}

/// Something that a peer can do.
#[derive(Debug, Clone, Copy, PartialEq, Eq, PartialOrd, Ord, Hash, Structural)]
pub enum Capability {
    WholeFileTransfer,
    CdcDeltaTransfer,
    FastCdcChunker,
    SeqCdcChunker,
    Symlink,
    Xattr,
    Acl,
    Compression,
    Resume,
    StructuredStats,
}

/// The number of a capability on the wire.
pub open spec fn capability_id(capability: Capability) -> u16 {
    match capability {
        Capability::WholeFileTransfer => 0x0001,
        Capability::CdcDeltaTransfer => 0x0002,
        Capability::FastCdcChunker => 0x0100,
        Capability::SeqCdcChunker => 0x0101,
        Capability::Symlink => 0x0300,
        Capability::Xattr => 0x0301,
        Capability::Acl => 0x0302,
        Capability::Compression => 0x0400,
        Capability::Resume => 0x0401,
        Capability::StructuredStats => 0x0500,
    }
}

/// The capability with the given number.
pub open spec fn capability_with(id: u16) -> Result<Capability, Refusal> {
    if id == 0x0001 {
        Ok(Capability::WholeFileTransfer)
    } else if id == 0x0002 {
        Ok(Capability::CdcDeltaTransfer)
    } else if id == 0x0100 {
        Ok(Capability::FastCdcChunker)
    } else if id == 0x0101 {
        Ok(Capability::SeqCdcChunker)
    } else if id == 0x0300 {
        Ok(Capability::Symlink)
    } else if id == 0x0301 {
        Ok(Capability::Xattr)
    } else if id == 0x0302 {
        Ok(Capability::Acl)
    } else if id == 0x0400 {
        Ok(Capability::Compression)
    } else if id == 0x0401 {
        Ok(Capability::Resume)
    } else if id == 0x0500 {
        Ok(Capability::StructuredStats)
    } else {
        Err(Refusal::UnknownCapabilityId { id })
    }
}

/// The name of a capability.
pub open spec fn capability_name(capability: Capability) -> Seq<char> {
    match capability {
        Capability::WholeFileTransfer => "whole-file-transfer"@,
        Capability::CdcDeltaTransfer => "cdc-delta-transfer"@,
        Capability::FastCdcChunker => "fastcdc-chunker"@,
        Capability::SeqCdcChunker => "seqcdc-chunker"@,
        Capability::Symlink => "symlink"@,
        Capability::Xattr => "xattr"@,
        Capability::Acl => "acl"@,
        Capability::Compression => "compression"@,
        Capability::Resume => "resume"@,
        Capability::StructuredStats => "structured-stats"@,
    }
}

impl Capability {
    /// The number of the capability on the wire.
    pub fn id(self) -> (id: u16)
        ensures
            id == capability_id(self),
    {
        match self {
            Capability::WholeFileTransfer => 0x0001,
            Capability::CdcDeltaTransfer => 0x0002,
            Capability::FastCdcChunker => 0x0100,
            Capability::SeqCdcChunker => 0x0101,
            Capability::Symlink => 0x0300,
            Capability::Xattr => 0x0301,
            Capability::Acl => 0x0302,
            Capability::Compression => 0x0400,
            Capability::Resume => 0x0401,
            Capability::StructuredStats => 0x0500,
        }
    }

    /// The capability with the given number on the wire.
    pub fn from_id(id: u16) -> (capability: Result<Self, ProtocolError>)
        ensures
            match capability_with(id) {
                Ok(expected) => capability == Ok::<Self, ProtocolError>(expected),
                Err(refusal) => capability matches Err(error) && error@ == refusal,
            },
    {
        match id {
            0x0001 => Ok(Capability::WholeFileTransfer),
            0x0002 => Ok(Capability::CdcDeltaTransfer),
            0x0100 => Ok(Capability::FastCdcChunker),
            0x0101 => Ok(Capability::SeqCdcChunker),
            0x0300 => Ok(Capability::Symlink),
            0x0301 => Ok(Capability::Xattr),
            0x0302 => Ok(Capability::Acl),
            0x0400 => Ok(Capability::Compression),
            0x0401 => Ok(Capability::Resume),
            0x0500 => Ok(Capability::StructuredStats),
            _ => Err(ProtocolError::UnknownCapabilityId { id }),
        }
    }

    /// The name of the capability.
    pub fn name(self) -> (name: &'static str)
        ensures
            name@ == capability_name(self),
    {
        match self {
            Capability::WholeFileTransfer => "whole-file-transfer",
            Capability::CdcDeltaTransfer => "cdc-delta-transfer",
            Capability::FastCdcChunker => "fastcdc-chunker",
            Capability::SeqCdcChunker => "seqcdc-chunker",
            Capability::Symlink => "symlink",
            Capability::Xattr => "xattr",
            Capability::Acl => "acl",
            Capability::Compression => "compression",
            Capability::Resume => "resume",
            Capability::StructuredStats => "structured-stats",
        }
    }

    /// The capability in words.
    pub fn to_string(&self) -> (text: String)
        ensures
            text@ == capability_name(*self),
    {
        self.name().to_string()
    }
}

/// Every capability has a number of its own.
pub proof fn lemma_capability_ids_round_trip(capability: Capability)
    ensures
        capability_with(capability_id(capability)) == Ok::<Capability, Refusal>(capability),
{
}

/// Where a capability stands when all are listed by their numbers.
spec fn rank(capability: Capability) -> int {
    match capability {
        Capability::WholeFileTransfer => 0,
        Capability::CdcDeltaTransfer => 1,
        Capability::FastCdcChunker => 2,
        Capability::SeqCdcChunker => 3,
        Capability::Symlink => 4,
        Capability::Xattr => 5,
        Capability::Acl => 6,
        Capability::Compression => 7,
        Capability::Resume => 8,
        Capability::StructuredStats => 9,
    }
}

/// All capabilities, by their numbers.
pub open spec fn all_capabilities() -> Seq<Capability> {
    seq![
        Capability::WholeFileTransfer,
        Capability::CdcDeltaTransfer,
        Capability::FastCdcChunker,
        Capability::SeqCdcChunker,
        Capability::Symlink,
        Capability::Xattr,
        Capability::Acl,
        Capability::Compression,
        Capability::Resume,
        Capability::StructuredStats,
    ]
}

/// The capabilities of a set from the `k`-th on, by their numbers.
pub open spec fn in_order_from(set: Set<Capability>, k: int) -> Seq<Capability>
    decreases 10 - k,
{
    if k < 0 || k >= 10 {
        Seq::empty()
    } else if set.contains(all_capabilities()[k]) {
        seq![all_capabilities()[k]] + in_order_from(set, k + 1)
    } else {
        in_order_from(set, k + 1)
    }
}

/// The capabilities of a set, by their numbers.
pub open spec fn in_order(set: Set<Capability>) -> Seq<Capability> {
    in_order_from(set, 0)
}

/// Whether each capability has a higher number than the one before.
pub open spec fn ascending(list: Seq<Capability>) -> bool {
    forall|i: int, j: int|
        0 <= i < j < list.len() ==> capability_id(#[trigger] list[i]) < capability_id(
            #[trigger] list[j],
        )
}

proof fn lemma_rank_orders(left: Capability, right: Capability)
    ensures
        0 <= rank(left) < 10,
        all_capabilities()[rank(left)] == left,
        rank(left) < rank(right) <==> capability_id(left) < capability_id(right),
        rank(left) == rank(right) <==> left == right,
{
}

proof fn lemma_listed_in_order(list: Seq<Capability>, set: Set<Capability>, k: int)
    requires
        0 <= k <= 10,
        ascending(list),
        forall|i: int| 0 <= i < list.len() ==> rank(#[trigger] list[i]) >= k,
        forall|capability: Capability|
            rank(capability) >= k ==> (#[trigger] set.contains(capability) <==> list.contains(
                capability,
            )),
    ensures
        in_order_from(set, k) == list,
    decreases 10 - k,
{
    if k == 10 {
        if list.len() > 0 {
            lemma_rank_orders(list[0], list[0]);
        }
        assert(list =~= Seq::<Capability>::empty());
    } else {
        let next = all_capabilities()[k];
        assert(rank(next) == k);
        if set.contains(next) {
            assert(list.contains(next));
            let p = choose|p: int| 0 <= p < list.len() && list[p] == next;
            if p > 0 {
                lemma_rank_orders(list[0], list[p]);
                assert(rank(list[0]) >= k);
            }
            let rest = list.drop_first();
            assert(list =~= seq![next] + rest);
            assert forall|i: int| 0 <= i < rest.len() implies rank(#[trigger] rest[i]) >= k + 1 by {
                assert(rest[i] == list[i + 1]);
                lemma_rank_orders(list[0], list[i + 1]);
            }
            assert forall|capability: Capability| rank(capability) >= k + 1 implies (
            #[trigger] set.contains(capability) <==> rest.contains(capability)) by {
                if list.contains(capability) {
                    let q = choose|q: int| 0 <= q < list.len() && list[q] == capability;
                    assert(rest[q - 1] == capability);
                }
                if rest.contains(capability) {
                    let q = choose|q: int| 0 <= q < rest.len() && rest[q] == capability;
                    assert(list[q + 1] == capability);
                }
            }
            assert(ascending(rest)) by {
                assert forall|i: int, j: int| 0 <= i < j < rest.len() implies capability_id(
                    #[trigger] rest[i],
                ) < capability_id(#[trigger] rest[j]) by {
                    assert(rest[i] == list[i + 1] && rest[j] == list[j + 1]);
                }
            }
            lemma_listed_in_order(rest, set, k + 1);
        } else {
            assert forall|i: int| 0 <= i < list.len() implies rank(#[trigger] list[i]) >= k + 1 by {
                if rank(list[i]) == k {
                    lemma_rank_orders(list[i], next);
                    assert(list.contains(next));
                }
            }
            lemma_listed_in_order(list, set, k + 1);
        }
    }
}

/// The order of a set lists each of its capabilities once, by their numbers.
pub proof fn lemma_in_order_lists_the_set(set: Set<Capability>)
    ensures
        ascending(in_order(set)),
        in_order(set).to_set() == set,
        in_order(set).len() <= 10,
{
    lemma_in_order_from(set, 0);
    assert forall|capability: Capability| #[trigger]
        in_order(set).to_set().contains(capability) <==> set.contains(capability) by {
        lemma_rank_orders(capability, capability);
        assert(in_order(set).contains(capability) <==> set.contains(capability));
    }
    assert(in_order(set).to_set() =~= set);
}

proof fn lemma_in_order_from(set: Set<Capability>, k: int)
    requires
        0 <= k <= 10,
    ensures
        ascending(in_order_from(set, k)),
        in_order_from(set, k).len() <= 10 - k,
        forall|i: int|
            0 <= i < in_order_from(set, k).len() ==> rank(#[trigger] in_order_from(set, k)[i])
                >= k,
        forall|capability: Capability|
            rank(capability) >= k ==> (#[trigger] set.contains(capability) <==> in_order_from(
                set,
                k,
            ).contains(capability)),
    decreases 10 - k,
{
    let list = in_order_from(set, k);
    if k == 10 {
        assert forall|capability: Capability| rank(capability) >= k implies (
        #[trigger] set.contains(capability) <==> list.contains(capability)) by {
            lemma_rank_orders(capability, capability);
        }
    } else {
        lemma_in_order_from(set, k + 1);
        let next = all_capabilities()[k];
        let rest = in_order_from(set, k + 1);
        assert(rank(next) == k);
        assert forall|i: int| 0 <= i < list.len() implies rank(#[trigger] list[i]) >= k by {
            if set.contains(next) && i > 0 {
                assert(list[i] == rest[i - 1]);
            }
        }
        assert forall|i: int, j: int| 0 <= i < j < list.len() implies capability_id(
            #[trigger] list[i],
        ) < capability_id(#[trigger] list[j]) by {
            if set.contains(next) {
                assert(list[j] == rest[j - 1]);
                lemma_rank_orders(list[i], list[j]);
                if i > 0 {
                    assert(list[i] == rest[i - 1]);
                }
            }
        }
        assert forall|capability: Capability| rank(capability) >= k implies (
        #[trigger] set.contains(capability) <==> list.contains(capability)) by {
            lemma_rank_orders(capability, next);
            if set.contains(next) {
                assert(list[0] == next);
                if rest.contains(capability) {
                    let q = choose|q: int| 0 <= q < rest.len() && rest[q] == capability;
                    assert(list[q + 1] == capability);
                }
                if list.contains(capability) && capability != next {
                    let q = choose|q: int| 0 <= q < list.len() && list[q] == capability;
                    assert(rest[q - 1] == capability);
                }
            } else if capability == next && list.contains(capability) {
                let q = choose|q: int| 0 <= q < list.len() && list[q] == capability;
                assert(rank(rest[q]) >= k + 1);
            }
        }
    }
}

/// A set of capabilities.
#[derive(Debug, PartialEq, Eq)]
pub struct CapabilitySet {
    /// The capabilities of the set, by their numbers.
    inner: Vec<Capability>,
}

impl View for CapabilitySet {
    type V = Set<Capability>;

    closed spec fn view(&self) -> Set<Capability> {
        self.inner@.to_set()
    }
}

/// The names of the capabilities, separated by commas.
pub open spec fn joined_names(list: Seq<Capability>) -> Seq<char>
    decreases list.len(),
{
    if list.len() == 0 {
        "(none)"@
    } else if list.len() == 1 {
        capability_name(list[0])
    } else {
        joined_names(list.drop_last()) + ", "@ + capability_name(list.last())
    }
}

impl CapabilitySet {
    #[verifier::type_invariant]
    spec fn sorted(self) -> bool {
        ascending(self.inner@)
    }

    /// The set of the given capabilities.
    pub fn new(capabilities: Vec<Capability>) -> (set: Self)
        ensures
            set@ == capabilities@.to_set(),
    {
        let mut inner: Vec<Capability> = Vec::new();
        let mut index: usize = 0;
        assert(inner@.to_set() =~= capabilities@.take(0).to_set());
        while index < capabilities.len()
            invariant
                index <= capabilities@.len(),
                ascending(inner@),
                inner@.to_set() == capabilities@.take(index as int).to_set(),
            decreases capabilities.len() - index,
        {
            let ghost before = inner@;
            let capability = capabilities[index];
            insert_in_order(&mut inner, capability);
            proof {
                let earlier = capabilities@.take(index as int);
                let later = capabilities@.take(index + 1);
                assert(later =~= earlier.push(capability));
                assert(later.to_set() =~= earlier.to_set().insert(capability)) by {
                    assert forall|c: Capability| #[trigger]
                        later.to_set().contains(c) <==> earlier.to_set().insert(
                            capability,
                        ).contains(c) by {
                        if earlier.contains(c) {
                            let p = choose|p: int| 0 <= p < earlier.len() && earlier[p] == c;
                            assert(later[p] == c);
                        }
                        if later.contains(c) && c != capability {
                            let p = choose|p: int| 0 <= p < later.len() && later[p] == c;
                            assert(earlier[p] == c);
                        }
                        assert(later[index as int] == capability);
                    }
                }
            }
            index = index + 1;
        }
        assert(capabilities@.take(index as int) =~= capabilities@);
        CapabilitySet { inner }
    }

    pub fn contains(&self, capability: Capability) -> (found: bool)
        ensures
            found == self@.contains(capability),
    {
        let mut index: usize = 0;
        while index < self.inner.len()
            invariant
                index <= self.inner@.len(),
                forall|i: int| 0 <= i < index ==> #[trigger] self.inner@[i] != capability,
            decreases self.inner.len() - index,
        {
            if self.inner[index] == capability {
                assert(self.inner@.contains(capability));
                return true;
            }
            index = index + 1;
        }
        false
    }

    /// The capabilities that are in both sets.
    pub fn intersection(&self, other: &Self) -> (shared: Self)
        ensures
            shared@ == self@.intersect(other@),
    {
        let mut list: Vec<Capability> = Vec::new();
        let mut index: usize = 0;
        while index < self.inner.len()
            invariant
                index <= self.inner@.len(),
                forall|c: Capability| #[trigger]
                    list@.contains(c) <==> self.inner@.take(index as int).contains(c)
                        && other@.contains(c),
            decreases self.inner.len() - index,
        {
            let ghost before = list@;
            let capability = self.inner[index];
            if other.contains(capability) {
                list.push(capability);
            }
            proof {
                let earlier = self.inner@.take(index as int);
                let later = self.inner@.take(index + 1);
                assert(later =~= earlier.push(capability));
                assert forall|c: Capability| #[trigger]
                    list@.contains(c) <==> later.contains(c) && other@.contains(c) by {
                    lemma_push_contains(earlier, capability, c);
                    lemma_push_contains(before, capability, c);
                    assert(before.contains(c) <==> earlier.contains(c) && other@.contains(c));
                }
            }
            index = index + 1;
        }
        assert(self.inner@.take(index as int) =~= self.inner@);
        let shared = CapabilitySet::new(list);
        assert(shared@ =~= self@.intersect(other@));
        shared
    }

    pub fn len(&self) -> (len: usize)
        ensures
            len == self@.len(),
            len == in_order(self@).len(),
    {
        proof {
            use_type_invariant(self);
            self.lemma_order();
            assert(self.inner@.no_duplicates()) by {
                assert forall|i: int, j: int|
                    0 <= i < self.inner@.len() && 0 <= j < self.inner@.len() && i
                        != j implies self.inner@[i] != self.inner@[j] by {
                    if i < j {
                        lemma_rank_orders(self.inner@[i], self.inner@[j]);
                    } else {
                        lemma_rank_orders(self.inner@[j], self.inner@[i]);
                    }
                }
            }
            self.inner@.unique_seq_to_set();
        }
        self.inner.len()
    }

    proof fn lemma_order(&self)
        requires
            ascending(self.inner@),
        ensures
            self.inner@ == in_order(self@),
    {
        assert forall|i: int| 0 <= i < self.inner@.len() implies rank(#[trigger] self.inner@[i])
            >= 0 by {
            lemma_rank_orders(self.inner@[i], self.inner@[i]);
        }
        lemma_listed_in_order(self.inner@, self@, 0);
    }

    /// The capabilities of the set, by their numbers.
    pub fn iter(&self) -> (list: Vec<Capability>)
        ensures
            list@ == in_order(self@),
    {
        proof {
            use_type_invariant(self);
            self.lemma_order();
        }
        let mut list: Vec<Capability> = Vec::new();
        let mut index: usize = 0;
        assert(list@ =~= self.inner@.take(0));
        while index < self.inner.len()
            invariant
                index <= self.inner@.len(),
                list@ == self.inner@.take(index as int),
            decreases self.inner.len() - index,
        {
            list.push(self.inner[index]);
            assert(list@ =~= self.inner@.take(index + 1));
            index = index + 1;
        }
        assert(list@ =~= self.inner@);
        list
    }

    /// The names of the capabilities, or `(none)`.
    pub fn to_string(&self) -> (text: String)
        ensures
            text@ == joined_names(in_order(self@)),
    {
        proof {
            use_type_invariant(self);
            self.lemma_order();
        }
        if self.inner.len() == 0 {
            return "(none)".to_string();
        }
        let mut text = self.inner[0].to_string();
        let mut index: usize = 1;
        while index < self.inner.len()
            invariant
                1 <= index <= self.inner@.len(),
                text@ == joined_names(self.inner@.take(index as int)),
            decreases self.inner.len() - index,
        {
            text.append(", ");
            text.append(self.inner[index].name());
            assert(self.inner@.take(index + 1).drop_last() =~= self.inner@.take(index as int));
            index = index + 1;
        }
        assert(self.inner@.take(index as int) =~= self.inner@);
        text
    }
}

proof fn lemma_push_contains(list: Seq<Capability>, added: Capability, capability: Capability)
    ensures
        list.push(added).contains(capability) <==> list.contains(capability) || capability == added,
{
    let grown = list.push(added);
    if list.contains(capability) {
        let p = choose|p: int| 0 <= p < list.len() && list[p] == capability;
        assert(grown[p] == capability);
    }
    if grown.contains(capability) && capability != added {
        let p = choose|p: int| 0 <= p < grown.len() && grown[p] == capability;
        assert(list[p] == capability);
    }
    assert(grown[list.len() as int] == added);
}

/// Puts a capability where its number belongs, unless it is there already.
fn insert_in_order(inner: &mut Vec<Capability>, capability: Capability)
    requires
        ascending(old(inner)@),
    ensures
        ascending(final(inner)@),
        final(inner)@.to_set() == old(inner)@.to_set().insert(capability),
{
    let ghost before = inner@;
    let mut position: usize = 0;
    while position < inner.len() && inner[position].id() < capability.id()
        invariant
            position <= inner@.len(),
            inner@ == before,
            forall|i: int|
                0 <= i < position ==> capability_id(#[trigger] before[i]) < capability_id(
                    capability,
                ),
        decreases inner.len() - position,
    {
        position = position + 1;
    }
    if position < inner.len() && inner[position] == capability {
        assert(before.contains(capability));
        assert(before.to_set() =~= before.to_set().insert(capability));
        return;
    }
    inner.insert(position, capability);
    proof {
        let after = inner@;
        assert(after =~= before.insert(position as int, capability));
        assert(forall|i: int| 0 <= i < position ==> after[i] == before[i]);
        assert(forall|i: int| position < i < after.len() ==> after[i] == before[i - 1]);
        assert forall|i: int, j: int| 0 <= i < j < after.len() implies capability_id(
            #[trigger] after[i],
        ) < capability_id(#[trigger] after[j]) by {
            if position < before.len() {
                lemma_rank_orders(before[position as int], capability);
            }
            if i == position {
                if j - 1 > position {
                    assert(capability_id(before[position as int]) < capability_id(before[j - 1]));
                }
            }
        }
        assert forall|c: Capability| #[trigger]
            after.to_set().contains(c) <==> before.to_set().insert(capability).contains(c) by {
            if before.contains(c) {
                let p = choose|p: int| 0 <= p < before.len() && before[p] == c;
                if p < position {
                    assert(after[p] == c);
                } else {
                    assert(after[p + 1] == c);
                }
            }
            if after.contains(c) && c != capability {
                let p = choose|p: int| 0 <= p < after.len() && after[p] == c;
                if p < position {
                    assert(before[p] == c);
                } else {
                    assert(before[p - 1] == c);
                }
            }
            assert(after[position as int] == capability);
        }
        assert(after.to_set() =~= before.to_set().insert(capability));
    }
}

impl Clone for CapabilitySet {
    fn clone(&self) -> (copy: Self)
        ensures
            copy@ == self@,
    {
        let copy = CapabilitySet::new(self.iter());
        proof {
            lemma_in_order_lists_the_set(self@);
        }
        copy
    }
}

impl Default for CapabilitySet {
    fn default() -> (set: Self)
        ensures
            set@ == Set::<Capability>::empty(),
    {
        let set = CapabilitySet { inner: Vec::new() };
        assert(set@ =~= Set::<Capability>::empty());
        set
    }
}

impl<const N: usize> From<[Capability; N]> for CapabilitySet {
    fn from(value: [Capability; N]) -> (set: Self)
        ensures
            set@ == value@.to_set(),
    {
        let mut list: Vec<Capability> = Vec::new();
        let mut index: usize = 0;
        assert(list@ =~= value@.take(0));
        while index < N
            invariant
                index <= N,
                list@ == value@.take(index as int),
            decreases N - index,
        {
            list.push(value[index]);
            assert(list@ =~= value@.take(index + 1));
            index = index + 1;
        }
        assert(list@ =~= value@);
        CapabilitySet::new(list)
    }
}

impl<const N: usize> vstd::std_specs::convert::FromSpecImpl<[Capability; N]> for CapabilitySet {
    open spec fn obeys_from_spec() -> bool {
        false
    }

    open spec fn from_spec(value: [Capability; N]) -> Self {
        arbitrary()
    }
}

/// A chunker that a message can refer to.
#[derive(Debug, Clone, Copy, PartialEq, Eq, PartialOrd, Ord, Hash, Structural)]
pub enum ChunkerId {
    FastCdc,
    SeqCdc,
}

impl ChunkerId {
    /// The number of the chunker on the wire.
    pub fn id(self) -> (id: u16)
        ensures
            id == match self {
                ChunkerId::FastCdc => 1,
                ChunkerId::SeqCdc => 2u16,
            },
    {
        match self {
            ChunkerId::FastCdc => 1,
            ChunkerId::SeqCdc => 2,
        }
    }

    /// The chunker in words.
    pub fn to_string(&self) -> (text: String)
        ensures
            text@ == match self {
                ChunkerId::FastCdc => "fastcdc"@,
                ChunkerId::SeqCdc => "seqcdc"@,
            },
    {
        match self {
            ChunkerId::FastCdc => "fastcdc".to_string(),
            ChunkerId::SeqCdc => "seqcdc".to_string(),
        }
    }
}

/// What a message can ask to be done.
#[derive(Debug, Clone, Copy, PartialEq, Eq, PartialOrd, Ord, Hash, Structural)]
pub enum OperationKind {
    CreateFile,
    ReplaceFile,
    UpdateMetadata,
    DeleteFile,
    DeleteDirectory,
    Skip,
}

impl OperationKind {
    /// The number of the operation on the wire.
    pub fn id(self) -> (id: u16)
        ensures
            id == match self {
                OperationKind::CreateFile => 1,
                OperationKind::ReplaceFile => 2,
                OperationKind::UpdateMetadata => 3,
                OperationKind::DeleteFile => 4,
                OperationKind::DeleteDirectory => 5,
                OperationKind::Skip => 6u16,
            },
    {
        match self {
            OperationKind::CreateFile => 1,
            OperationKind::ReplaceFile => 2,
            OperationKind::UpdateMetadata => 3,
            OperationKind::DeleteFile => 4,
            OperationKind::DeleteDirectory => 5,
            OperationKind::Skip => 6,
        }
    }

    /// The operation in words.
    pub fn to_string(&self) -> (text: String)
        ensures
            text@ == match self {
                OperationKind::CreateFile => "create-file"@,
                OperationKind::ReplaceFile => "replace-file"@,
                OperationKind::UpdateMetadata => "update-metadata"@,
                OperationKind::DeleteFile => "delete-file"@,
                OperationKind::DeleteDirectory => "delete-directory"@,
                OperationKind::Skip => "skip"@,
            },
    {
        match self {
            OperationKind::CreateFile => "create-file".to_string(),
            OperationKind::ReplaceFile => "replace-file".to_string(),
            OperationKind::UpdateMetadata => "update-metadata".to_string(),
            OperationKind::DeleteFile => "delete-file".to_string(),
            OperationKind::DeleteDirectory => "delete-directory".to_string(),
            OperationKind::Skip => "skip".to_string(),
        }
    }
}

/// The sizes that a peer takes.
#[derive(Debug, Clone, Copy, PartialEq, Eq)]
pub struct Limits {
    max_frame_bytes: u32,
    max_chunk_bytes: u32,
}

impl View for Limits {
    type V = (u32, u32);

    closed spec fn view(&self) -> (u32, u32) {
        (self.max_frame_bytes, self.max_chunk_bytes)
    }
}

/// Limits that two peers both keep.
pub open spec fn shared_limits(left: (u32, u32), right: (u32, u32)) -> (u32, u32) {
    (
        if left.0 <= right.0 {
            left.0
        } else {
            right.0
        },
        if left.1 <= right.1 {
            left.1
        } else {
            right.1
        },
    )
}

/// The limits of the given sizes, none of which may be zero.
pub open spec fn limits_of(max_frame_bytes: u32, max_chunk_bytes: u32) -> Result<
    (u32, u32),
    Refusal,
> {
    if max_frame_bytes == 0 {
        Err(Refusal::InvalidLimit { field: "max-frame-bytes"@, value: 0 })
    } else if max_chunk_bytes == 0 {
        Err(Refusal::InvalidLimit { field: "max-chunk-bytes"@, value: 0 })
    } else {
        Ok((max_frame_bytes, max_chunk_bytes))
    }
}

impl Limits {
    pub const DEFAULT_MAX_FRAME_BYTES: u32 = 8388608;

    pub const DEFAULT_MAX_CHUNK_BYTES: u32 = 4194304;

    #[verifier::type_invariant]
    spec fn positive(self) -> bool {
        self.max_frame_bytes > 0 && self.max_chunk_bytes > 0
    }

    pub fn new(max_frame_bytes: u32, max_chunk_bytes: u32) -> (limits: Result<Self, ProtocolError>)
        ensures
            match limits_of(max_frame_bytes, max_chunk_bytes) {
                Ok(expected) => limits matches Ok(found) && found@ == expected,
                Err(refusal) => limits matches Err(error) && error@ == refusal,
            },
    {
        if max_frame_bytes == 0 {
            return Err(
                ProtocolError::InvalidLimit { field: "max-frame-bytes", value: max_frame_bytes },
            );
        }
        if max_chunk_bytes == 0 {
            return Err(
                ProtocolError::InvalidLimit { field: "max-chunk-bytes", value: max_chunk_bytes },
            );
        }
        Ok(Limits { max_frame_bytes, max_chunk_bytes })
    }

    pub fn max_frame_bytes(self) -> (size: u32)
        ensures
            size == self@.0,
            size > 0,
    {
        proof {
            use_type_invariant(&self);
        }
        self.max_frame_bytes
    }

    pub fn max_chunk_bytes(self) -> (size: u32)
        ensures
            size == self@.1,
            size > 0,
    {
        proof {
            use_type_invariant(&self);
        }
        self.max_chunk_bytes
    }

    /// The limits that this peer and `other` both keep.
    pub fn negotiate(self, other: Self) -> (limits: Self)
        ensures
            limits@ == shared_limits(self@, other@),
    {
        proof {
            use_type_invariant(&self);
            use_type_invariant(&other);
        }
        Limits {
            max_frame_bytes: if self.max_frame_bytes <= other.max_frame_bytes {
                self.max_frame_bytes
            } else {
                other.max_frame_bytes
            },
            max_chunk_bytes: if self.max_chunk_bytes <= other.max_chunk_bytes {
                self.max_chunk_bytes
            } else {
                other.max_chunk_bytes
            },
        }
    }
}

impl Default for Limits {
    fn default() -> (limits: Self)
        ensures
            limits@ == (8388608u32, 4194304u32),
    {
        Limits {
            max_frame_bytes: Self::DEFAULT_MAX_FRAME_BYTES,
            max_chunk_bytes: Self::DEFAULT_MAX_CHUNK_BYTES,
        }
    }
}

/// Limits that are agreed on exceed those of neither peer.
pub proof fn lemma_shared_limits_suit_both(left: (u32, u32), right: (u32, u32))
    ensures
        shared_limits(left, right).0 <= left.0 && shared_limits(left, right).0 <= right.0,
        shared_limits(left, right).1 <= left.1 && shared_limits(left, right).1 <= right.1,
        shared_limits(left, right) == shared_limits(right, left),
{
}

/// What a peer tells the other first.
#[derive(Debug, PartialEq, Eq)]
pub struct Hello {
    pub role: PeerRole,
    pub implementation: ImplementationInfo,
    pub versions: VersionRange,
    pub capabilities: CapabilitySet,
    pub limits: Limits,
}

/// What a greeting says.
pub struct Greeting {
    pub role: PeerRole,
    pub implementation: (Seq<char>, Seq<char>),
    pub versions: (u16, u16),
    pub capabilities: Set<Capability>,
    pub limits: (u32, u32),
}

impl View for Hello {
    type V = Greeting;

    open spec fn view(&self) -> Greeting {
        Greeting {
            role: self.role,
            implementation: self.implementation@,
            versions: self.versions@,
            capabilities: self.capabilities@,
            limits: self.limits@,
        }
    }
}

impl Clone for Hello {
    fn clone(&self) -> (copy: Self)
        ensures
            copy@ == self@,
    {
        Hello {
            role: self.role,
            implementation: self.implementation.clone(),
            versions: self.versions,
            capabilities: self.capabilities.clone(),
            limits: self.limits,
        }
    }
}

/// What two peers agreed on.
#[derive(Debug, Clone, PartialEq, Eq)]
pub struct NegotiatedSession {
    pub version: ProtocolVersion,
    pub capabilities: CapabilitySet,
    pub limits: Limits,
    pub local_role: PeerRole,
    pub remote_role: PeerRole,
    pub local_implementation: ImplementationInfo,
    pub remote_implementation: ImplementationInfo,
}

/// What an agreement says.
pub struct Agreement {
    pub version: u16,
    pub capabilities: Set<Capability>,
    pub limits: (u32, u32),
    pub local_role: PeerRole,
    pub remote_role: PeerRole,
    pub local_implementation: (Seq<char>, Seq<char>),
    pub remote_implementation: (Seq<char>, Seq<char>),
}

impl View for NegotiatedSession {
    type V = Agreement;

    open spec fn view(&self) -> Agreement {
        Agreement {
            version: self.version.0,
            capabilities: self.capabilities@,
            limits: self.limits@,
            local_role: self.local_role,
            remote_role: self.remote_role,
            local_implementation: self.local_implementation@,
            remote_implementation: self.remote_implementation@,
        }
    }
}

/// What two greetings lead to. The peers need different roles and a version that
/// both know; they use what both can do, within the limits of both.
pub open spec fn agreed(local: Greeting, remote: Greeting) -> Result<Agreement, Refusal> {
    if local.role == remote.role {
        Err(Refusal::IncompatibleRoles { local: local.role, remote: remote.role })
    } else {
        match shared_version(local.versions, remote.versions) {
            None => Err(
                Refusal::NoSharedVersion { local: local.versions, remote: remote.versions },
            ),
            Some(version) => Ok(
                Agreement {
                    version,
                    capabilities: local.capabilities.intersect(remote.capabilities),
                    limits: shared_limits(local.limits, remote.limits),
                    local_role: local.role,
                    remote_role: remote.role,
                    local_implementation: local.implementation,
                    remote_implementation: remote.implementation,
                },
            ),
        }
    }
}

/// Both peers come to the same agreement, each seen from its own side.
pub proof fn lemma_agreement_is_mutual(local: Greeting, remote: Greeting)
    ensures
        agreed(local, remote) is Ok <==> agreed(remote, local) is Ok,
        agreed(local, remote) matches Ok(here) ==> (agreed(remote, local) matches Ok(there)
            && here.version == there.version && here.capabilities == there.capabilities
            && here.limits == there.limits && here.local_role == there.remote_role
            && here.remote_role == there.local_role && here.local_implementation
            == there.remote_implementation && here.remote_implementation
            == there.local_implementation),
{
    assert(local.capabilities.intersect(remote.capabilities) =~= remote.capabilities.intersect(
        local.capabilities,
    ));
}

/// A text field: its length in bytes, and the bytes.
pub open spec fn text_field(text: Seq<char>, field: Seq<char>) -> Result<Seq<u8>, Refusal> {
    let bytes = vstd::utf8::encode_utf8(text);
    if bytes.len() > u16::MAX {
        Err(Refusal::FieldTooLarge { message: "Hello"@, field, len: bytes.len() as int })
    } else {
        Ok(crate::wire::be16(bytes.len() as u16) + bytes)
    }
}

/// The numbers of the capabilities, one after the other.
pub open spec fn capability_bytes(list: Seq<Capability>) -> Seq<u8>
    decreases list.len(),
{
    if list.len() == 0 {
        Seq::empty()
    } else {
        capability_bytes(list.drop_last()) + crate::wire::be16(capability_id(list.last()))
    }
}

/// The fields of fixed width that a greeting starts with.
pub open spec fn fixed_fields(greeting: Greeting) -> Seq<u8> {
    seq![role_id(greeting.role)] + crate::wire::be16(greeting.versions.0) + crate::wire::be16(
        greeting.versions.1,
    ) + crate::wire::be32(greeting.limits.0) + crate::wire::be32(greeting.limits.1)
}

/// A greeting on the wire.
pub open spec fn encoded_hello(greeting: Greeting) -> Result<Seq<u8>, Refusal> {
    match text_field(greeting.implementation.0, "implementation-name"@) {
        Err(refusal) => Err(refusal),
        Ok(name) => match text_field(greeting.implementation.1, "implementation-version"@) {
            Err(refusal) => Err(refusal),
            Ok(version) => {
                let list = in_order(greeting.capabilities);
                Ok(
                    fixed_fields(greeting) + name + version + crate::wire::be16(list.len() as u16)
                        + capability_bytes(list),
                )
            },
        },
    }
}

/// A greeting with its message kind in front.
pub open spec fn encoded_message(greeting: Greeting) -> Result<Seq<u8>, Refusal> {
    match encoded_hello(greeting) {
        Err(refusal) => Err(refusal),
        Ok(body) => Ok(crate::wire::be16(1) + body),
    }
}

/// The text that starts at `at`, and where it ends.
pub open spec fn text_at(bytes: Seq<u8>, at: int, field: Seq<char>) -> Result<
    (Seq<char>, int),
    Refusal,
> {
    let truncated = Err(Refusal::TruncatedMessage { message: "Hello"@, field });
    if at + 2 > bytes.len() {
        truncated
    } else {
        let end = at + 2 + crate::wire::be16_at(bytes, at);
        if end > bytes.len() {
            truncated
        } else {
            let text = bytes.subrange(at + 2, end);
            if vstd::utf8::valid_utf8(text) {
                Ok((vstd::utf8::decode_utf8(text), end))
            } else {
                Err(Refusal::InvalidTextField { message: "Hello"@, field })
            }
        }
    }
}

/// The `count` capabilities that start at `at`.
pub open spec fn capabilities_at(bytes: Seq<u8>, at: int, count: int) -> Result<
    Seq<Capability>,
    Refusal,
>
    decreases count,
{
    if count <= 0 {
        Ok(Seq::empty())
    } else if at + 2 > bytes.len() {
        Err(Refusal::TruncatedMessage { message: "Hello"@, field: "capability-id"@ })
    } else {
        match capability_with(crate::wire::be16_at(bytes, at)) {
            Err(refusal) => Err(refusal),
            Ok(capability) => match capabilities_at(bytes, at + 2, count - 1) {
                Err(refusal) => Err(refusal),
                Ok(rest) => Ok(seq![capability] + rest),
            },
        }
    }
}

/// The refusal of a greeting that ends inside a field of fixed width.
pub open spec fn cut_short(field: Seq<char>) -> Result<Greeting, Refusal> {
    Err(Refusal::TruncatedMessage { message: "Hello"@, field })
}

/// The greeting that `bytes` start with. Each field is looked at in turn, and
/// the first thing wrong is what is refused.
pub open spec fn decoded_hello(bytes: Seq<u8>) -> Result<Greeting, Refusal> {
    let min = crate::wire::be16_at(bytes, 1);
    let max = crate::wire::be16_at(bytes, 3);
    if bytes.len() < 1 {
        cut_short("role"@)
    } else if role_with(bytes[0]) is Err {
        Err(Refusal::UnknownPeerRole { value: bytes[0] })
    } else if bytes.len() < 3 {
        cut_short("min-version"@)
    } else if bytes.len() < 5 {
        cut_short("max-version"@)
    } else if min > max {
        Err(
            Refusal::InvalidVersionRange { min: ProtocolVersion(min), max: ProtocolVersion(max) },
        )
    } else if bytes.len() < 9 {
        cut_short("max-frame-bytes"@)
    } else if bytes.len() < 13 {
        cut_short("max-chunk-bytes"@)
    } else {
        match limits_of(crate::wire::be32_at(bytes, 5), crate::wire::be32_at(bytes, 9)) {
            Err(refusal) => Err(refusal),
            Ok(limits) => match text_at(bytes, 13, "implementation-name"@) {
                Err(refusal) => Err(refusal),
                Ok((name, at)) => match text_at(bytes, at, "implementation-version"@) {
                    Err(refusal) => Err(refusal),
                    Ok((version, at)) => if at + 2 > bytes.len() {
                        cut_short("capability-count"@)
                    } else {
                        match capabilities_at(
                            bytes,
                            at + 2,
                            crate::wire::be16_at(bytes, at) as int,
                        ) {
                            Err(refusal) => Err(refusal),
                            Ok(list) => Ok(
                                Greeting {
                                    role: role_with(bytes[0])->Ok_0,
                                    implementation: (name, version),
                                    versions: (min, max),
                                    capabilities: list.to_set(),
                                    limits,
                                },
                            ),
                        }
                    },
                },
            },
        }
    }
}

/// The message that `bytes` start with.
pub open spec fn decoded_message(bytes: Seq<u8>) -> Result<Greeting, Refusal> {
    if bytes.len() < 2 {
        Err(Refusal::TruncatedMessage { message: "Message"@, field: "kind"@ })
    } else if crate::wire::be16_at(bytes, 0) != 1 {
        Err(Refusal::UnknownMessageKind { kind: crate::wire::be16_at(bytes, 0) })
    } else {
        decoded_hello(bytes.skip(2))
    }
}

/// Appends a text field.
fn push_text_field(
    encoded: &mut Vec<u8>,
    message: &'static str,
    field: &'static str,
    value: &str,
) -> (outcome: Result<(), ProtocolError>)
    requires
        message@ == "Hello"@,
    ensures
        match text_field(value@, field@) {
            Ok(bytes) => outcome is Ok && final(encoded)@ == old(encoded)@ + bytes,
            Err(refusal) => outcome matches Err(error) && error@ == refusal,
        },
{
    let bytes = value.as_bytes();
    if bytes.len() > u16::MAX as usize {
        return Err(ProtocolError::FieldTooLarge { message, field, len: bytes.len() });
    }
    push_be16(encoded, bytes.len() as u16);
    encoded.extend_from_slice(bytes);
    assert(encoded@ =~= old(encoded)@ + text_field(value@, field@)->Ok_0);
    Ok(())
}

/// A position in a message that is being read.
struct Cursor<'a> {
    message: &'static str,
    bytes: &'a [u8],
    offset: usize,
}

impl<'a> Cursor<'a> {
    spec fn wf(&self) -> bool {
        self.offset <= self.bytes@.len()
    }

    /// Whether the cursor moved on in the same message.
    spec fn follows(&self, before: Self, len: int) -> bool {
        &&& self.message == before.message
        &&& self.bytes == before.bytes
        &&& self.offset == before.offset + len
        &&& self.wf()
    }

    spec fn truncated(&self, field: Seq<char>) -> Refusal {
        Refusal::TruncatedMessage { message: self.message@, field }
    }

    fn new(message: &'static str, bytes: &'a [u8]) -> (cursor: Self)
        ensures
            cursor.wf(),
            cursor.message == message,
            cursor.bytes == bytes,
            cursor.offset == 0,
    {
        Cursor { message, bytes, offset: 0 }
    }

    /// The next `len` bytes.
    fn read_bytes(&mut self, field: &'static str, len: usize) -> (read: Result<
        &'a [u8],
        ProtocolError,
    >)
        requires
            old(self).wf(),
        ensures
            if old(self).offset + len > old(self).bytes@.len() {
                read matches Err(error) && error@ == old(self).truncated(field@)
            } else {
                &&& read matches Ok(found)
                &&& found@ == old(self).bytes@.subrange(
                    old(self).offset as int,
                    old(self).offset + len,
                )
                &&& final(self).follows(*old(self), len as int)
            },
    {
        if len > self.bytes.len() - self.offset {
            return Err(ProtocolError::TruncatedMessage { message: self.message, field });
        }
        let start: usize = self.offset;
        self.offset = start + len;
        Ok(slice_subrange(self.bytes, start, start + len))
    }

    fn read_u8(&mut self, field: &'static str) -> (read: Result<u8, ProtocolError>)
        requires
            old(self).wf(),
        ensures
            if old(self).offset + 1 > old(self).bytes@.len() {
                read matches Err(error) && error@ == old(self).truncated(field@)
            } else {
                &&& read == Ok::<u8, ProtocolError>(old(self).bytes@[old(self).offset as int])
                &&& final(self).follows(*old(self), 1)
            },
    {
        match self.read_bytes(field, 1) {
            Ok(bytes) => Ok(bytes[0]),
            Err(error) => Err(error),
        }
    }

    fn read_u16(&mut self, field: &'static str) -> (read: Result<u16, ProtocolError>)
        requires
            old(self).wf(),
        ensures
            if old(self).offset + 2 > old(self).bytes@.len() {
                read matches Err(error) && error@ == old(self).truncated(field@)
            } else {
                &&& read == Ok::<u16, ProtocolError>(
                    crate::wire::be16_at(old(self).bytes@, old(self).offset as int),
                )
                &&& final(self).follows(*old(self), 2)
            },
    {
        match self.read_bytes(field, 2) {
            Ok(bytes) => Ok(read_be16(bytes, 0)),
            Err(error) => Err(error),
        }
    }

    fn read_u32(&mut self, field: &'static str) -> (read: Result<u32, ProtocolError>)
        requires
            old(self).wf(),
        ensures
            if old(self).offset + 4 > old(self).bytes@.len() {
                read matches Err(error) && error@ == old(self).truncated(field@)
            } else {
                &&& read == Ok::<u32, ProtocolError>(
                    crate::wire::be32_at(old(self).bytes@, old(self).offset as int),
                )
                &&& final(self).follows(*old(self), 4)
            },
    {
        match self.read_bytes(field, 4) {
            Ok(bytes) => Ok(read_be32(bytes, 0)),
            Err(error) => Err(error),
        }
    }

    fn read_string(&mut self, field: &'static str) -> (read: Result<String, ProtocolError>)
        requires
            old(self).wf(),
            old(self).message@ == "Hello"@,
        ensures
            match text_at(old(self).bytes@, old(self).offset as int, field@) {
                Err(refusal) => read matches Err(error) && error@ == refusal,
                Ok((text, end)) => {
                    &&& read matches Ok(found)
                    &&& found@ == text
                    &&& final(self).follows(*old(self), end - old(self).offset)
                },
            },
    {
        let len: usize = match self.read_u16(field) {
            Ok(len) => len as usize,
            Err(error) => {
                return Err(error);
            },
        };
        let bytes = match self.read_bytes(field, len) {
            Ok(bytes) => bytes,
            Err(error) => {
                return Err(error);
            },
        };
        match text_from_bytes(bytes) {
            Some(text) => Ok(text),
            None => Err(ProtocolError::InvalidTextField { message: self.message, field }),
        }
    }

    /// What has not been read.
    fn remaining(&self) -> (rest: &'a [u8])
        requires
            self.wf(),
        ensures
            rest@ == self.bytes@.skip(self.offset as int),
    {
        let rest = slice_subrange(self.bytes, self.offset, self.bytes.len());
        assert(rest@ =~= self.bytes@.skip(self.offset as int));
        rest
    }
}

/// What `list` and what follows it are together.
spec fn after_list(
    list: Seq<Capability>,
    rest: Result<Seq<Capability>, Refusal>,
) -> Result<Seq<Capability>, Refusal> {
    match rest {
        Ok(more) => Ok(list + more),
        Err(refusal) => Err(refusal),
    }
}

impl Hello {
    pub fn new(
        role: PeerRole,
        implementation: ImplementationInfo,
        versions: VersionRange,
        capabilities: CapabilitySet,
        limits: Limits,
    ) -> (hello: Self)
        ensures
            hello == (Hello { role, implementation, versions, capabilities, limits }),
    {
        Hello { role, implementation, versions, capabilities, limits }
    }

    /// A greeting that offers the current protocol version alone.
    pub fn for_current(
        role: PeerRole,
        implementation: ImplementationInfo,
        capabilities: CapabilitySet,
        limits: Limits,
    ) -> (hello: Self)
        ensures
            hello@ == (Greeting {
                role,
                implementation: implementation@,
                versions: (CURRENT_PROTOCOL_VERSION, CURRENT_PROTOCOL_VERSION),
                capabilities: capabilities@,
                limits: limits@,
            }),
    {
        Hello::new(
            role,
            implementation,
            VersionRange::exact(ProtocolVersion(CURRENT_PROTOCOL_VERSION)),
            capabilities,
            limits,
        )
    }

    /// What two greetings lead to.
    pub fn negotiate(local: &Self, remote: &Self) -> (session: Result<
        NegotiatedSession,
        ProtocolError,
    >)
        ensures
            match agreed(local@, remote@) {
                Ok(agreement) => session matches Ok(found) && found@ == agreement,
                Err(refusal) => session matches Err(error) && error@ == refusal,
            },
    {
        if local.role == remote.role {
            return Err(
                ProtocolError::IncompatibleRoles { local: local.role, remote: remote.role },
            );
        }
        let version = match local.versions.highest_shared(remote.versions) {
            Some(version) => version,
            None => {
                return Err(
                    ProtocolError::NoSharedVersion {
                        local: local.versions,
                        remote: remote.versions,
                    },
                );
            },
        };
        Ok(
            NegotiatedSession {
                version,
                capabilities: local.capabilities.intersection(&remote.capabilities),
                limits: local.limits.negotiate(remote.limits),
                local_role: local.role,
                remote_role: remote.role,
                local_implementation: local.implementation.clone(),
                remote_implementation: remote.implementation.clone(),
            },
        )
    }

    /// The greeting on the wire, without its message kind.
    pub fn encode_body(&self) -> (encoded: Result<Vec<u8>, ProtocolError>)
        ensures
            match encoded_hello(self@) {
                Ok(bytes) => encoded matches Ok(found) && found@ == bytes,
                Err(refusal) => encoded matches Err(error) && error@ == refusal,
            },
    {
        let mut encoded: Vec<u8> = Vec::new();
        encoded.push(self.role.wire_id());
        push_be16(&mut encoded, self.versions.min().as_u16());
        push_be16(&mut encoded, self.versions.max().as_u16());
        push_be32(&mut encoded, self.limits.max_frame_bytes());
        push_be32(&mut encoded, self.limits.max_chunk_bytes());
        assert(encoded@ =~= fixed_fields(self@));
        if let Err(error) = push_text_field(
            &mut encoded,
            "Hello",
            "implementation-name",
            self.implementation.name.as_str(),
        ) {
            return Err(error);
        }
        if let Err(error) = push_text_field(
            &mut encoded,
            "Hello",
            "implementation-version",
            self.implementation.version.as_str(),
        ) {
            return Err(error);
        }
        let list = self.capabilities.iter();
        proof {
            lemma_in_order_lists_the_set(self.capabilities@);
        }
        if list.len() > u16::MAX as usize {
            return Err(
                ProtocolError::FieldTooLarge {
                    message: "Hello",
                    field: "capabilities",
                    len: list.len(),
                },
            );
        }
        push_be16(&mut encoded, list.len() as u16);
        let ghost front = encoded@;
        let mut index: usize = 0;
        assert(capability_bytes(list@.take(0)) =~= Seq::<u8>::empty());
        assert(encoded@ =~= front + capability_bytes(list@.take(0)));
        while index < list.len()
            invariant
                index <= list@.len(),
                encoded@ == front + capability_bytes(list@.take(index as int)),
            decreases list.len() - index,
        {
            push_be16(&mut encoded, list[index].id());
            assert(list@.take(index + 1).drop_last() =~= list@.take(index as int));
            assert(encoded@ =~= front + capability_bytes(list@.take(index + 1)));
            index = index + 1;
        }
        assert(list@.take(index as int) =~= list@);
        Ok(encoded)
    }

    /// The greeting that `encoded` starts with.
    pub fn decode_body(encoded: &[u8]) -> (hello: Result<Self, ProtocolError>)
        ensures
            match decoded_hello(encoded@) {
                Ok(greeting) => hello matches Ok(found) && found@ == greeting,
                Err(refusal) => hello matches Err(error) && error@ == refusal,
            },
    {
        let mut cursor = Cursor::new("Hello", encoded);
        let role_value: u8 = match cursor.read_u8("role") {
            Ok(value) => value,
            Err(error) => {
                return Err(error);
            },
        };
        let role = match PeerRole::from_wire(role_value) {
            Ok(role) => role,
            Err(error) => {
                return Err(error);
            },
        };
        let min: u16 = match cursor.read_u16("min-version") {
            Ok(value) => value,
            Err(error) => {
                return Err(error);
            },
        };
        let max: u16 = match cursor.read_u16("max-version") {
            Ok(value) => value,
            Err(error) => {
                return Err(error);
            },
        };
        let versions = match VersionRange::new(ProtocolVersion::new(min), ProtocolVersion::new(max))
        {
            Ok(versions) => versions,
            Err(error) => {
                return Err(error);
            },
        };
        let max_frame_bytes: u32 = match cursor.read_u32("max-frame-bytes") {
            Ok(value) => value,
            Err(error) => {
                return Err(error);
            },
        };
        let max_chunk_bytes: u32 = match cursor.read_u32("max-chunk-bytes") {
            Ok(value) => value,
            Err(error) => {
                return Err(error);
            },
        };
        let limits = match Limits::new(max_frame_bytes, max_chunk_bytes) {
            Ok(limits) => limits,
            Err(error) => {
                return Err(error);
            },
        };
        let name = match cursor.read_string("implementation-name") {
            Ok(text) => text,
            Err(error) => {
                return Err(error);
            },
        };
        let version = match cursor.read_string("implementation-version") {
            Ok(text) => text,
            Err(error) => {
                return Err(error);
            },
        };
        let count: u16 = match cursor.read_u16("capability-count") {
            Ok(value) => value,
            Err(error) => {
                return Err(error);
            },
        };
        let ghost start = cursor.offset as int;
        let ghost expected = capabilities_at(encoded@, start, count as int);
        let mut list: Vec<Capability> = Vec::new();
        let mut left: u16 = count;
        assert(expected == after_list(list@, expected)) by {
            if let Ok(more) = expected {
                assert(list@ + more =~= more);
            }
        }
        while left > 0
            invariant
                cursor.wf(),
                cursor.bytes == encoded,
                cursor.message@ == "Hello"@,
                expected == after_list(
                    list@,
                    capabilities_at(encoded@, cursor.offset as int, left as int),
                ),
                decoded_hello(encoded@) is Err ==> expected is Err,
                expected is Err ==> decoded_hello(encoded@) == Err::<Greeting, Refusal>(
                    expected->Err_0,
                ),
            decreases left,
        {
            let ghost (before, at) = (list@, cursor.offset as int);
            let id: u16 = match cursor.read_u16("capability-id") {
                Ok(value) => value,
                Err(error) => {
                    return Err(error);
                },
            };
            let capability = match Capability::from_id(id) {
                Ok(capability) => capability,
                Err(error) => {
                    return Err(error);
                },
            };
            list.push(capability);
            left = left - 1;
            assert(expected == after_list(
                list@,
                capabilities_at(encoded@, cursor.offset as int, left as int),
            )) by {
                if let Ok(more) = capabilities_at(encoded@, at + 2, left as int) {
                    assert(before + (seq![capability] + more) =~= list@ + more);
                }
            }
        }
        assert(list@ + Seq::<Capability>::empty() =~= list@);
        Ok(
            Hello {
                role,
                implementation: ImplementationInfo { name, version },
                versions,
                capabilities: CapabilitySet::new(list),
                limits,
            },
        )
    }
}

impl NegotiatedSession {
    /// Refuses the session unless both peers have every capability of `required`.
    /// The first one missing is named.
    pub fn require_capabilities(&self, required: &[Capability]) -> (outcome: Result<
        (),
        ProtocolError,
    >)
        ensures
            match first_missing(self.capabilities@, required@, 0) {
                None => outcome is Ok,
                Some(capability) => outcome == Err::<(), ProtocolError>(
                    ProtocolError::MissingRequiredCapability { capability },
                ),
            },
    {
        let mut index: usize = 0;
        while index < required.len()
            invariant
                index <= required@.len(),
                first_missing(self.capabilities@, required@, 0) == first_missing(
                    self.capabilities@,
                    required@,
                    index as int,
                ),
            decreases required.len() - index,
        {
            let capability = required[index];
            if !self.capabilities.contains(capability) {
                return Err(ProtocolError::MissingRequiredCapability { capability });
            }
            index = index + 1;
        }
        Ok(())
    }
}

/// The first capability from `from` on that is not in the set.
pub open spec fn first_missing(
    set: Set<Capability>,
    required: Seq<Capability>,
    from: int,
) -> Option<Capability>
    decreases required.len() - from,
{
    if from < 0 || from >= required.len() {
        None
    } else if !set.contains(required[from]) {
        Some(required[from])
    } else {
        first_missing(set, required, from + 1)
    }
}

/// What a message is about.
#[derive(Debug, Clone, Copy, PartialEq, Eq, Structural)]
pub enum MessageKind {
    Hello,
}

impl MessageKind {
    /// The number of the kind on the wire.
    pub fn id(self) -> (id: u16)
        ensures
            id == 1,
    {
        match self {
            MessageKind::Hello => 1,
        }
    }

    /// The kind with the given number on the wire.
    pub fn from_id(id: u16) -> (kind: Result<Self, ProtocolError>)
        ensures
            if id == 1 {
                kind == Ok::<Self, ProtocolError>(MessageKind::Hello)
            } else {
                kind == Err::<Self, ProtocolError>(ProtocolError::UnknownMessageKind { kind: id })
            },
    {
        match id {
            1 => Ok(MessageKind::Hello),
            _ => Err(ProtocolError::UnknownMessageKind { kind: id }),
        }
    }
}

/// A message between the peers.
#[derive(Debug, PartialEq, Eq)]
pub enum Message {
    Hello(Hello),
}

impl View for Message {
    type V = Greeting;

    open spec fn view(&self) -> Greeting {
        match self {
            Message::Hello(hello) => hello@,
        }
    }
}

impl Clone for Message {
    fn clone(&self) -> (copy: Self)
        ensures
            copy@ == self@,
    {
        match self {
            Message::Hello(hello) => Message::Hello(hello.clone()),
        }
    }
}

impl Message {
    /// The message on the wire.
    pub fn encode(&self) -> (encoded: Result<Vec<u8>, ProtocolError>)
        ensures
            match encoded_message(self@) {
                Ok(bytes) => encoded matches Ok(found) && found@ == bytes,
                Err(refusal) => encoded matches Err(error) && error@ == refusal,
            },
    {
        match self {
            Message::Hello(hello) => {
                let mut encoded: Vec<u8> = Vec::new();
                push_be16(&mut encoded, MessageKind::Hello.id());
                let body = match hello.encode_body() {
                    Ok(body) => body,
                    Err(error) => {
                        return Err(error);
                    },
                };
                encoded.extend_from_slice(body.as_slice());
                assert(encoded@ =~= crate::wire::be16(1) + body@);
                Ok(encoded)
            },
        }
    }

    /// The message that `encoded` starts with.
    pub fn decode(encoded: &[u8]) -> (message: Result<Self, ProtocolError>)
        ensures
            match decoded_message(encoded@) {
                Ok(greeting) => message matches Ok(found) && found@ == greeting,
                Err(refusal) => message matches Err(error) && error@ == refusal,
            },
    {
        let mut cursor = Cursor::new("Message", encoded);
        let id: u16 = match cursor.read_u16("kind") {
            Ok(id) => id,
            Err(error) => {
                return Err(error);
            },
        };
        let kind = match MessageKind::from_id(id) {
            Ok(kind) => kind,
            Err(error) => {
                return Err(error);
            },
        };
        match kind {
            MessageKind::Hello => match Hello::decode_body(cursor.remaining()) {
                Ok(hello) => Ok(Message::Hello(hello)),
                Err(error) => Err(error),
            },
        }
    }
}

proof fn lemma_text_round_trip(
    bytes: Seq<u8>,
    at: int,
    text: Seq<char>,
    field: Seq<char>,
    written: Seq<u8>,
)
    requires
        0 <= at,
        text_field(text, field) == Ok::<Seq<u8>, Refusal>(written),
        at + written.len() <= bytes.len(),
        bytes.subrange(at, at + written.len()) == written,
    ensures
        text_at(bytes, at, field) == Ok::<(Seq<char>, int), Refusal>((text, at + written.len())),
{
    let encoded = vstd::utf8::encode_utf8(text);
    let piece = bytes.subrange(at, at + written.len());
    assert(written == crate::wire::be16(encoded.len() as u16) + encoded);
    assert(bytes.subrange(at, at + 2) =~= crate::wire::be16(encoded.len() as u16)) by {
        assert(bytes.subrange(at, at + 2) =~= piece.subrange(0, 2));
    }
    crate::wire::lemma_written_is_read(bytes, at);
    assert(bytes.subrange(at + 2, at + written.len()) =~= encoded) by {
        assert(bytes.subrange(at + 2, at + written.len()) =~= piece.subrange(
            2,
            written.len() as int,
        ));
    }
    vstd::utf8::encode_utf8_valid_utf8(text);
    vstd::utf8::encode_utf8_decode_utf8(text);
}

proof fn lemma_capability_bytes_len(list: Seq<Capability>)
    ensures
        capability_bytes(list).len() == 2 * list.len(),
    decreases list.len(),
{
    if list.len() > 0 {
        lemma_capability_bytes_len(list.drop_last());
    }
}

proof fn lemma_capability_bytes_first(list: Seq<Capability>)
    requires
        list.len() > 0,
    ensures
        capability_bytes(list) == crate::wire::be16(capability_id(list[0])) + capability_bytes(
            list.drop_first(),
        ),
    decreases list.len(),
{
    if list.len() == 1 {
        assert(list.drop_last() =~= Seq::<Capability>::empty());
        assert(list.drop_first() =~= Seq::<Capability>::empty());
        assert(capability_bytes(list.drop_last()) =~= Seq::<u8>::empty());
        assert(capability_bytes(list.drop_first()) =~= Seq::<u8>::empty());
        assert(capability_bytes(list) =~= crate::wire::be16(capability_id(list[0]))
            + capability_bytes(list.drop_first()));
    } else {
        lemma_capability_bytes_first(list.drop_last());
        assert(list.drop_last().drop_first() =~= list.drop_first().drop_last());
        assert(list.drop_first().last() == list.last());
        assert(capability_bytes(list) =~= crate::wire::be16(capability_id(list[0]))
            + capability_bytes(list.drop_first()));
    }
}

proof fn lemma_capabilities_round_trip(bytes: Seq<u8>, at: int, list: Seq<Capability>)
    requires
        0 <= at,
        at + 2 * list.len() <= bytes.len(),
        bytes.subrange(at, at + 2 * list.len()) == capability_bytes(list),
    ensures
        capabilities_at(bytes, at, list.len() as int) == Ok::<Seq<Capability>, Refusal>(list),
    decreases list.len(),
{
    if list.len() == 0 {
        assert(list =~= Seq::<Capability>::empty());
    } else {
        let rest = list.drop_first();
        let piece = bytes.subrange(at, at + 2 * list.len());
        lemma_capability_bytes_first(list);
        lemma_capability_bytes_len(rest);
        assert(bytes.subrange(at, at + 2) =~= piece.subrange(0, 2));
        assert(piece.subrange(0, 2) =~= crate::wire::be16(capability_id(list[0])));
        crate::wire::lemma_written_is_read(bytes, at);
        lemma_capability_ids_round_trip(list[0]);
        assert(bytes.subrange(at + 2, at + 2 + 2 * rest.len()) =~= piece.subrange(
            2,
            piece.len() as int,
        ));
        assert(piece.subrange(2, piece.len() as int) =~= capability_bytes(rest));
        lemma_capabilities_round_trip(bytes, at + 2, rest);
        assert(list =~= seq![list[0]] + rest);
    }
}

/// Decoding an encoded greeting gives the greeting back.
proof fn lemma_hello_round_trips(greeting: Greeting)
    requires
        greeting.versions.0 <= greeting.versions.1,
        greeting.limits.0 > 0,
        greeting.limits.1 > 0,
        encoded_hello(greeting) is Ok,
    ensures
        decoded_hello(encoded_hello(greeting)->Ok_0) == Ok::<Greeting, Refusal>(greeting),
{
    let bytes = encoded_hello(greeting)->Ok_0;
    let name = text_field(greeting.implementation.0, "implementation-name"@)->Ok_0;
    let version = text_field(greeting.implementation.1, "implementation-version"@)->Ok_0;
    let list = in_order(greeting.capabilities);
    let front = fixed_fields(greeting);
    let count = crate::wire::be16(list.len() as u16);
    let tail = capability_bytes(list);
    lemma_in_order_lists_the_set(greeting.capabilities);
    lemma_capability_bytes_len(list);
    assert(bytes == front + name + version + count + tail);
    assert(front.len() == 13);
    assert(forall|i: int| 0 <= i < 13 ==> bytes[i] == front[i]);
    assert(bytes.subrange(1, 3) =~= crate::wire::be16(greeting.versions.0));
    assert(bytes.subrange(3, 5) =~= crate::wire::be16(greeting.versions.1));
    assert(bytes.subrange(5, 9) =~= crate::wire::be32(greeting.limits.0));
    assert(bytes.subrange(9, 13) =~= crate::wire::be32(greeting.limits.1));
    crate::wire::lemma_written_is_read(bytes, 1);
    crate::wire::lemma_written_is_read(bytes, 3);
    crate::wire::lemma_written_is_read(bytes, 5);
    crate::wire::lemma_written_is_read(bytes, 9);
    assert(bytes.subrange(13, 13 + name.len() as int) =~= name);
    lemma_text_round_trip(bytes, 13, greeting.implementation.0, "implementation-name"@, name);
    let second = 13 + name.len() as int;
    assert(bytes.subrange(second, second + version.len()) =~= version);
    lemma_text_round_trip(
        bytes,
        second,
        greeting.implementation.1,
        "implementation-version"@,
        version,
    );
    let third = second + version.len() as int;
    assert(bytes.subrange(third, third + 2) =~= count);
    crate::wire::lemma_written_is_read(bytes, third);
    assert(bytes.subrange(third + 2, third + 2 + 2 * list.len()) =~= tail);
    lemma_capabilities_round_trip(bytes, third + 2, list);
}

/// A greeting behind its message kind is decoded as that greeting.
proof fn lemma_kind_is_skipped(body: Seq<u8>)
    ensures
        decoded_message(crate::wire::be16(1) + body) == decoded_hello(body),
{
    let bytes = crate::wire::be16(1) + body;
    assert(bytes.subrange(0, 2) =~= crate::wire::be16(1));
    crate::wire::lemma_written_is_read(bytes, 0);
    assert(bytes.skip(2) =~= body);
}

/// Whether both texts of a greeting fit into their fields.
pub open spec fn texts_fit(greeting: Greeting) -> bool {
    &&& vstd::utf8::encode_utf8(greeting.implementation.0).len() <= u16::MAX
    &&& vstd::utf8::encode_utf8(greeting.implementation.1).len() <= u16::MAX
}

/// A message whose texts fit is encoded, and decoding it gives the message back.
pub proof fn lemma_messages_round_trip(greeting: Greeting)
    requires
        greeting.versions.0 <= greeting.versions.1,
        greeting.limits.0 > 0,
        greeting.limits.1 > 0,
        texts_fit(greeting),
    ensures
        encoded_message(greeting) is Ok,
        decoded_message(encoded_message(greeting)->Ok_0) == Ok::<Greeting, Refusal>(greeting),
{
    lemma_hello_round_trips(greeting);
    lemma_kind_is_skipped(encoded_hello(greeting)->Ok_0);
}

/// Whether a message was refused because it ended inside a field.
pub open spec fn is_truncated(decoded: Result<Greeting, Refusal>) -> bool {
    decoded matches Err(Refusal::TruncatedMessage { .. })
}

/// A text field that is cut off is missed.
proof fn lemma_text_cut_short(
    bytes: Seq<u8>,
    at: int,
    text: Seq<char>,
    field: Seq<char>,
    written: Seq<u8>,
)
    requires
        0 <= at <= bytes.len(),
        text_field(text, field) == Ok::<Seq<u8>, Refusal>(written),
        bytes.len() < at + written.len(),
        bytes.skip(at) == written.take(bytes.len() - at),
    ensures
        text_at(bytes, at, field) == Err::<(Seq<char>, int), Refusal>(
            Refusal::TruncatedMessage { message: "Hello"@, field },
        ),
{
    if at + 2 <= bytes.len() {
        let encoded = vstd::utf8::encode_utf8(text);
        let piece = bytes.skip(at);
        assert(bytes.subrange(at, at + 2) =~= piece.subrange(0, 2));
        assert(piece.subrange(0, 2) =~= crate::wire::be16(encoded.len() as u16));
        crate::wire::lemma_written_is_read(bytes, at);
    }
}

/// A list of capabilities that is cut off is missed.
proof fn lemma_capabilities_cut_short(bytes: Seq<u8>, at: int, list: Seq<Capability>)
    requires
        0 <= at <= bytes.len(),
        bytes.len() < at + 2 * list.len(),
        bytes.skip(at) == capability_bytes(list).take(bytes.len() - at),
    ensures
        capabilities_at(bytes, at, list.len() as int) == Err::<Seq<Capability>, Refusal>(
            Refusal::TruncatedMessage { message: "Hello"@, field: "capability-id"@ },
        ),
    decreases list.len(),
{
    lemma_capability_bytes_len(list);
    if at + 2 <= bytes.len() {
        let rest = list.drop_first();
        let piece = bytes.skip(at);
        lemma_capability_bytes_first(list);
        lemma_capability_bytes_len(rest);
        assert(bytes.subrange(at, at + 2) =~= piece.subrange(0, 2));
        assert(piece.subrange(0, 2) =~= crate::wire::be16(capability_id(list[0])));
        crate::wire::lemma_written_is_read(bytes, at);
        lemma_capability_ids_round_trip(list[0]);
        assert(bytes.skip(at + 2) =~= piece.skip(2));
        assert(piece.skip(2) =~= capability_bytes(rest).take(bytes.len() - (at + 2)));
        lemma_capabilities_cut_short(bytes, at + 2, rest);
    }
}

/// What follows the fields of fixed width is missed where it is cut off.
proof fn lemma_hello_tail_cut_short(greeting: Greeting, len: int)
    requires
        encoded_hello(greeting) is Ok,
        13 <= len < encoded_hello(greeting)->Ok_0.len(),
    ensures
        ({
            let bytes = encoded_hello(greeting)->Ok_0.take(len);
            match text_at(bytes, 13, "implementation-name"@) {
                Err(refusal) => refusal is TruncatedMessage,
                Ok((_, at)) => match text_at(bytes, at, "implementation-version"@) {
                    Err(refusal) => refusal is TruncatedMessage,
                    Ok((_, at)) => at + 2 > bytes.len() || (capabilities_at(
                        bytes,
                        at + 2,
                        crate::wire::be16_at(bytes, at) as int,
                    ) matches Err(refusal) && refusal is TruncatedMessage),
                },
            }
        }),
{
    let whole = encoded_hello(greeting)->Ok_0;
    let bytes = whole.take(len);
    let name = text_field(greeting.implementation.0, "implementation-name"@)->Ok_0;
    let version = text_field(greeting.implementation.1, "implementation-version"@)->Ok_0;
    let list = in_order(greeting.capabilities);
    let front = fixed_fields(greeting);
    let count = crate::wire::be16(list.len() as u16);
    let tail = capability_bytes(list);
    let second = 13 + name.len() as int;
    let third = second + version.len() as int;
    lemma_in_order_lists_the_set(greeting.capabilities);
    lemma_capability_bytes_len(list);
    assert(whole == front + name + version + count + tail);
    assert(front.len() == 13);
    if len < second {
        assert(bytes.skip(13) =~= name.take(len - 13));
        lemma_text_cut_short(bytes, 13, greeting.implementation.0, "implementation-name"@, name);
    } else {
        assert(bytes.subrange(13, second) =~= name);
        lemma_text_round_trip(bytes, 13, greeting.implementation.0, "implementation-name"@, name);
        if len < third {
            assert(bytes.skip(second) =~= version.take(len - second));
            lemma_text_cut_short(
                bytes,
                second,
                greeting.implementation.1,
                "implementation-version"@,
                version,
            );
        } else {
            assert(bytes.subrange(second, third) =~= version);
            lemma_text_round_trip(
                bytes,
                second,
                greeting.implementation.1,
                "implementation-version"@,
                version,
            );
            if third + 2 <= len {
                assert(bytes.subrange(third, third + 2) =~= count);
                crate::wire::lemma_written_is_read(bytes, third);
                assert(bytes.skip(third + 2) =~= tail.take(len - (third + 2)));
                lemma_capabilities_cut_short(bytes, third + 2, list);
            }
        }
    }
}

/// A greeting that is cut off is refused as truncated.
proof fn lemma_hello_cut_short(greeting: Greeting, len: int)
    requires
        greeting.versions.0 <= greeting.versions.1,
        greeting.limits.0 > 0,
        greeting.limits.1 > 0,
        encoded_hello(greeting) is Ok,
        0 <= len < encoded_hello(greeting)->Ok_0.len(),
    ensures
        is_truncated(decoded_hello(encoded_hello(greeting)->Ok_0.take(len))),
{
    let whole = encoded_hello(greeting)->Ok_0;
    let bytes = whole.take(len);
    let front = fixed_fields(greeting);
    assert(front.len() == 13);
    assert(forall|i: int| 0 <= i < 13 ==> whole[i] == front[i]);
    if 1 <= len {
        assert(bytes[0] == role_id(greeting.role));
    }
    if 5 <= len {
        assert(bytes.subrange(1, 3) =~= crate::wire::be16(greeting.versions.0));
        assert(bytes.subrange(3, 5) =~= crate::wire::be16(greeting.versions.1));
        crate::wire::lemma_written_is_read(bytes, 1);
        crate::wire::lemma_written_is_read(bytes, 3);
    }
    if 13 <= len {
        assert(bytes.subrange(5, 9) =~= crate::wire::be32(greeting.limits.0));
        assert(bytes.subrange(9, 13) =~= crate::wire::be32(greeting.limits.1));
        crate::wire::lemma_written_is_read(bytes, 5);
        crate::wire::lemma_written_is_read(bytes, 9);
        lemma_hello_tail_cut_short(greeting, len);
    }
}

/// No message that is cut off decodes: every strict prefix of an encoded message is
/// refused as truncated.
pub proof fn lemma_cut_messages_are_truncated(greeting: Greeting, len: int)
    requires
        greeting.versions.0 <= greeting.versions.1,
        greeting.limits.0 > 0,
        greeting.limits.1 > 0,
        encoded_message(greeting) is Ok,
        0 <= len < encoded_message(greeting)->Ok_0.len(),
    ensures
        is_truncated(decoded_message(encoded_message(greeting)->Ok_0.take(len))),
{
    let body = encoded_hello(greeting)->Ok_0;
    let bytes = encoded_message(greeting)->Ok_0.take(len);
    if 2 <= len {
        assert(bytes =~= crate::wire::be16(1) + body.take(len - 2));
        lemma_kind_is_skipped(body.take(len - 2));
        lemma_hello_cut_short(greeting, len - 2);
    }
}

/// Peers of one role come to no agreement, nor do peers without a version in common.
/// Any others agree on the highest version that both know, on exactly the capabilities that
/// both have, and for each size on the smaller of the two limits. Each side keeps its own
/// role and name.
pub proof fn lemma_agreement_is_the_best_for_both(local: Greeting, remote: Greeting)
    ensures
        match agreed(local, remote) {
            Err(refusal) => if local.role == remote.role {
                refusal == (Refusal::IncompatibleRoles { local: local.role, remote: remote.role })
            } else {
                &&& refusal == (Refusal::NoSharedVersion {
                    local: local.versions,
                    remote: remote.versions,
                })
                &&& forall|version: u16|
                    !(#[trigger] in_range(version, local.versions) && in_range(
                        version,
                        remote.versions,
                    ))
            },
            Ok(agreement) => {
                &&& local.role != remote.role
                &&& local.versions.0 <= agreement.version <= local.versions.1
                &&& remote.versions.0 <= agreement.version <= remote.versions.1
                &&& forall|version: u16|
                    #[trigger] in_range(version, local.versions) && in_range(
                        version,
                        remote.versions,
                    ) ==> version <= agreement.version
                &&& forall|capability: Capability|
                    agreement.capabilities.contains(capability)
                        <==> #[trigger] local.capabilities.contains(capability)
                        && remote.capabilities.contains(capability)
                &&& agreement.limits.0 == local.limits.0 || agreement.limits.0 == remote.limits.0
                &&& agreement.limits.0 <= local.limits.0 && agreement.limits.0 <= remote.limits.0
                &&& agreement.limits.1 == local.limits.1 || agreement.limits.1 == remote.limits.1
                &&& agreement.limits.1 <= local.limits.1 && agreement.limits.1 <= remote.limits.1
                &&& agreement.local_role == local.role
                &&& agreement.remote_role == remote.role
                &&& agreement.local_implementation == local.implementation
                &&& agreement.remote_implementation == remote.implementation
            },
        },
{
}

/// Nothing is missing exactly if every required capability is there. Else the first that is
/// not is named.
pub proof fn lemma_first_missing_is_named(set: Set<Capability>, required: Seq<Capability>)
    ensures
        match first_missing(set, required, 0) {
            None => forall|k: int| 0 <= k < required.len() ==> set.contains(#[trigger] required[k]),
            Some(capability) => exists|k: int|
                #![trigger required[k]]
                0 <= k < required.len() && required[k] == capability && !set.contains(capability)
                    && forall|i: int| 0 <= i < k ==> set.contains(#[trigger] required[i]),
        },
{
    lemma_first_missing_from(set, required, 0);
}

proof fn lemma_first_missing_from(set: Set<Capability>, required: Seq<Capability>, from: int)
    requires
        0 <= from,
    ensures
        match first_missing(set, required, from) {
            None => forall|k: int|
                from <= k < required.len() ==> set.contains(#[trigger] required[k]),
            Some(capability) => exists|k: int|
                #![trigger required[k]]
                from <= k < required.len() && required[k] == capability && !set.contains(
                    capability,
                ) && forall|i: int| from <= i < k ==> set.contains(#[trigger] required[i]),
        },
    decreases required.len() - from,
{
    if from < required.len() {
        if set.contains(required[from]) {
            lemma_first_missing_from(set, required, from + 1);
            if let Some(capability) = first_missing(set, required, from + 1) {
                let k = choose|k: int|
                    #![trigger required[k]]
                    from + 1 <= k < required.len() && required[k] == capability && !set.contains(
                        capability,
                    ) && forall|i: int| from + 1 <= i < k ==> set.contains(#[trigger] required[i]);
                assert(required[k] == capability);
            }
        } else {
            assert(required[from] == required[from]);
        }
    }
}

/// The number in two bytes, the higher first.
pub open spec fn short_at(bytes: Seq<u8>, at: int) -> int {
    bytes[at] * 256 + bytes[at + 1]
}

/// The number in four bytes, the highest first.
pub open spec fn long_at(bytes: Seq<u8>, at: int) -> int {
    bytes[at] * 16777216 + bytes[at + 1] * 65536 + bytes[at + 2] * 256 + bytes[at + 3]
}

proof fn lemma_capability_bytes(list: Seq<Capability>, k: int)
    requires
        0 <= k < list.len(),
    ensures
        capability_bytes(list).len() == 2 * list.len(),
        short_at(capability_bytes(list), 2 * k) == capability_id(list[k]),
    decreases list.len(),
{
    let rest = list.drop_last();
    let (front, last) = (
        capability_bytes(rest),
        crate::wire::be16(capability_id(list.last())),
    );
    crate::wire::lemma_bytes_are_digits(capability_id(list.last()), 0);
    assert(capability_bytes(list) == front + last);
    if rest.len() > 0 {
        lemma_capability_bytes(
            rest,
            if k < rest.len() {
                k
            } else {
                0
            },
        );
    } else {
        assert(front =~= Seq::<u8>::empty());
    }
    if k < rest.len() {
        assert((front + last)[2 * k] == front[2 * k]);
        assert((front + last)[2 * k + 1] == front[2 * k + 1]);
        assert(rest[k] == list[k]);
    } else {
        assert((front + last)[2 * k] == last[0]);
        assert((front + last)[2 * k + 1] == last[1]);
    }
}

/// A greeting on the wire: the number of the role, both ends of the versions, both limits,
/// the two texts with their lengths in front, and the number of the capabilities with the
/// number of each, which ascend. It cannot be written exactly if a text is too long.
pub proof fn lemma_greetings_are_laid_out(greeting: Greeting)
    ensures
        ({
            let name = vstd::utf8::encode_utf8(greeting.implementation.0);
            let version = vstd::utf8::encode_utf8(greeting.implementation.1);
            let list = in_order(greeting.capabilities);
            let second = 15 + name.len() as int;
            let third = second + 2 + version.len();
            match encoded_hello(greeting) {
                Err(refusal) => name.len() > 65535 && refusal == (Refusal::FieldTooLarge {
                    message: "Hello"@,
                    field: "implementation-name"@,
                    len: name.len() as int,
                }) || name.len() <= 65535 && version.len() > 65535 && refusal == (
                Refusal::FieldTooLarge {
                    message: "Hello"@,
                    field: "implementation-version"@,
                    len: version.len() as int,
                }),
                Ok(bytes) => {
                    &&& name.len() <= 65535 && version.len() <= 65535
                    &&& bytes.len() == third + 2 + 2 * list.len()
                    &&& bytes[0] == match greeting.role {
                        PeerRole::Coordinator => 1,
                        PeerRole::Helper => 2int,
                    }
                    &&& short_at(bytes, 1) == greeting.versions.0
                    &&& short_at(bytes, 3) == greeting.versions.1
                    &&& long_at(bytes, 5) == greeting.limits.0
                    &&& long_at(bytes, 9) == greeting.limits.1
                    &&& short_at(bytes, 13) == name.len()
                    &&& bytes.subrange(15, second) == name
                    &&& short_at(bytes, second) == version.len()
                    &&& bytes.subrange(second + 2, third) == version
                    &&& short_at(bytes, third) == list.len()
                    &&& forall|k: int|
                        0 <= k < list.len() ==> short_at(bytes, third + 2 + 2 * k) == capability_id(
                            #[trigger] list[k],
                        )
                },
            }
        }),
{
    let name = vstd::utf8::encode_utf8(greeting.implementation.0);
    let version = vstd::utf8::encode_utf8(greeting.implementation.1);
    let list = in_order(greeting.capabilities);
    let second = 15 + name.len() as int;
    let third = second + 2 + version.len();
    if let Ok(bytes) = encoded_hello(greeting) {
        lemma_in_order_lists_the_set(greeting.capabilities);
        crate::wire::lemma_bytes_are_digits(greeting.versions.0, greeting.limits.0);
        crate::wire::lemma_bytes_are_digits(greeting.versions.1, greeting.limits.1);
        crate::wire::lemma_bytes_are_digits(name.len() as u16, 0);
        crate::wire::lemma_bytes_are_digits(version.len() as u16, 0);
        crate::wire::lemma_bytes_are_digits(list.len() as u16, 0);
        let tail = capability_bytes(list);
        if list.len() > 0 {
            lemma_capability_bytes(list, 0);
        }
        assert(bytes.subrange(15, second) =~= name);
        assert(bytes.subrange(second + 2, third) =~= version);
        assert(bytes.skip(third + 2) =~= tail);
        assert(bytes.subrange(0, 13) =~= fixed_fields(greeting));
        let fixed = fixed_fields(greeting);
        assert(forall|i: int| 0 <= i < 13 ==> bytes[i] == fixed[i]);
        assert(bytes.subrange(13, 15) =~= crate::wire::be16(name.len() as u16));
        assert(bytes[13] == crate::wire::be16(name.len() as u16)[0]);
        assert(bytes[14] == crate::wire::be16(name.len() as u16)[1]);
        assert(bytes[second] == crate::wire::be16(version.len() as u16)[0]);
        assert(bytes[second + 1] == crate::wire::be16(version.len() as u16)[1]);
        assert(bytes[third] == crate::wire::be16(list.len() as u16)[0]);
        assert(bytes[third + 1] == crate::wire::be16(list.len() as u16)[1]);
        assert forall|k: int| 0 <= k < list.len() implies short_at(bytes, third + 2 + 2 * k)
            == capability_id(#[trigger] list[k]) by {
            lemma_capability_bytes(list, k);
            assert(bytes[third + 2 + 2 * k] == tail[2 * k]);
            assert(bytes[third + 2 + 2 * k + 1] == tail[2 * k + 1]);
        }
    }
}

/// Whether some capability has the number `id`.
pub open spec fn known_id(id: int) -> bool {
    exists|capability: Capability| #[trigger] capability_id(capability) == id
}

proof fn lemma_capability_with(id: u16)
    ensures
        match capability_with(id) {
            Ok(capability) => capability_id(capability) == id,
            Err(refusal) => !known_id(id as int) && refusal == (Refusal::UnknownCapabilityId {
                id,
            }),
        },
{
    if capability_with(id) is Err && known_id(id as int) {
        let capability = choose|capability: Capability| #[trigger] capability_id(capability) == id;
        lemma_capability_ids_round_trip(capability);
    }
}

proof fn lemma_capabilities_at(bytes: Seq<u8>, at: int, count: int)
    requires
        0 <= at,
        0 <= count,
    ensures
        capabilities_at(bytes, at, count) is Ok <==> (count == 0 || at + 2 * count <= bytes.len())
            && forall|k: int|
            0 <= k < count ==> known_id(#[trigger] short_at(bytes, at + 2 * k)),
        capabilities_at(bytes, at, count) matches Ok(list) ==> list.len() == count && forall|k: int|
            0 <= k < count ==> capability_id(#[trigger] list[k]) == short_at(bytes, at + 2 * k),
    decreases count,
{
    if count > 0 {
        crate::wire::lemma_digits_are_read(bytes, at);
        lemma_capability_with(crate::wire::be16_at(bytes, at));
        lemma_capabilities_at(bytes, at + 2, count - 1);
        let here = capability_with(crate::wire::be16_at(bytes, at));
        let later = capabilities_at(bytes, at + 2, count - 1);
        if at + 2 <= bytes.len() && here is Ok && later is Ok {
            assert(capability_id(here->Ok_0) == short_at(bytes, at));
            let list = capabilities_at(bytes, at, count)->Ok_0;
            assert forall|k: int| 0 <= k < count implies capability_id(#[trigger] list[k])
                == short_at(bytes, at + 2 * k) by {
                if k > 0 {
                    assert(list[k] == later->Ok_0[k - 1]);
                    assert(at + 2 + 2 * (k - 1) == at + 2 * k);
                }
            }
            assert forall|k: int| 0 <= k < count implies known_id(
                #[trigger] short_at(bytes, at + 2 * k),
            ) by {
                assert(capability_id(list[k]) == short_at(bytes, at + 2 * k));
            }
        }
        if at + 2 * count <= bytes.len() && (forall|k: int|
            0 <= k < count ==> known_id(#[trigger] short_at(bytes, at + 2 * k))) {
            assert(known_id(short_at(bytes, at + 2 * 0)));
            assert forall|k: int| 0 <= k < count - 1 implies known_id(
                #[trigger] short_at(bytes, at + 2 + 2 * k),
            ) by {
                assert(at + 2 + 2 * k == at + 2 * (k + 1));
                assert(known_id(short_at(bytes, at + 2 * (k + 1))));
            }
        }
    }
}

/// A greeting is read exactly if it is all there and makes sense: a known role, versions in
/// their order, limits that are not zero, well-formed texts and known capabilities, in any
/// order. It says what its bytes do, and what stands behind it does not matter.
pub proof fn lemma_greetings_say_what_their_bytes_do(bytes: Seq<u8>)
    ensures
        ({
            let second = 15 + short_at(bytes, 13);
            let third = second + 2 + short_at(bytes, second);
            let count = short_at(bytes, third);
            &&& decoded_hello(bytes) is Ok <==> {
                &&& bytes.len() >= 15
                &&& bytes[0] == 1 || bytes[0] == 2
                &&& short_at(bytes, 1) <= short_at(bytes, 3)
                &&& long_at(bytes, 5) > 0
                &&& long_at(bytes, 9) > 0
                &&& bytes.len() >= second + 2
                &&& vstd::utf8::valid_utf8(bytes.subrange(15, second))
                &&& bytes.len() >= third + 2
                &&& vstd::utf8::valid_utf8(bytes.subrange(second + 2, third))
                &&& bytes.len() >= third + 2 + 2 * count
                &&& forall|k: int|
                    0 <= k < count ==> known_id(#[trigger] short_at(bytes, third + 2 + 2 * k))
            }
            &&& decoded_hello(bytes) matches Ok(greeting) ==> {
                &&& greeting.role == PeerRole::Coordinator <==> bytes[0] == 1
                &&& greeting.versions.0 == short_at(bytes, 1)
                &&& greeting.versions.1 == short_at(bytes, 3)
                &&& greeting.limits.0 == long_at(bytes, 5)
                &&& greeting.limits.1 == long_at(bytes, 9)
                &&& greeting.implementation.0 == vstd::utf8::decode_utf8(
                    bytes.subrange(15, second),
                )
                &&& greeting.implementation.1 == vstd::utf8::decode_utf8(
                    bytes.subrange(second + 2, third),
                )
                &&& forall|capability: Capability|
                    #![trigger greeting.capabilities.contains(capability)]
                    greeting.capabilities.contains(capability) <==> exists|k: int|
                        0 <= k < count && #[trigger] short_at(bytes, third + 2 + 2 * k)
                            == capability_id(capability)
            }
        }),
{
    let second = 15 + short_at(bytes, 13);
    let third = second + 2 + short_at(bytes, second);
    let count = short_at(bytes, third);
    crate::wire::lemma_digits_are_read(bytes, 1);
    crate::wire::lemma_digits_are_read(bytes, 3);
    crate::wire::lemma_digits_are_read(bytes, 5);
    crate::wire::lemma_digits_are_read(bytes, 9);
    crate::wire::lemma_digits_are_read(bytes, 13);
    crate::wire::lemma_digits_are_read(bytes, second);
    crate::wire::lemma_digits_are_read(bytes, third);
    lemma_capabilities_at(bytes, third + 2, count);
    if let Ok(greeting) = decoded_hello(bytes) {
        let list = capabilities_at(bytes, third + 2, count)->Ok_0;
        assert forall|capability: Capability|
            #![trigger greeting.capabilities.contains(capability)]
            greeting.capabilities.contains(capability) <==> exists|k: int|
                0 <= k < count && #[trigger] short_at(bytes, third + 2 + 2 * k) == capability_id(
                    capability,
                ) by {
            if greeting.capabilities.contains(capability) {
                let k = choose|k: int| 0 <= k < list.len() && list[k] == capability;
                assert(short_at(bytes, third + 2 + 2 * k) == capability_id(list[k]));
            }
            if exists|k: int|
                0 <= k < count && #[trigger] short_at(bytes, third + 2 + 2 * k) == capability_id(
                    capability,
                ) {
                let k = choose|k: int|
                    0 <= k < count && #[trigger] short_at(bytes, third + 2 + 2 * k)
                        == capability_id(capability);
                assert(capability_id(list[k]) == capability_id(capability));
                lemma_rank_orders(list[k], capability);
                lemma_rank_orders(capability, list[k]);
                assert(list.contains(capability));
            }
        }
    }
}

/// A message is the number one in two bytes and a greeting behind it. Any other number is
/// refused, and so are bytes that end inside it.
pub proof fn lemma_messages_are_greetings_behind_their_kind(bytes: Seq<u8>, greeting: Greeting)
    ensures
        bytes.len() >= 2 && bytes[0] == 0 && bytes[1] == 1 ==> decoded_message(bytes)
            == decoded_hello(bytes.skip(2)),
        bytes.len() >= 2 && !(bytes[0] == 0 && bytes[1] == 1) ==> (decoded_message(bytes) matches Err(
            Refusal::UnknownMessageKind { kind },
        ) && kind == short_at(bytes, 0)),
        bytes.len() < 2 ==> decoded_message(bytes) == Err::<Greeting, Refusal>(
            Refusal::TruncatedMessage { message: "Message"@, field: "kind"@ },
        ),
        encoded_message(greeting) is Err <==> encoded_hello(greeting) is Err,
        encoded_message(greeting) matches Ok(written) ==> written.len() >= 2 && written[0] == 0
            && written[1] == 1 && encoded_hello(greeting) == Ok::<Seq<u8>, Refusal>(
            written.skip(2),
        ),
{
    crate::wire::lemma_digits_are_read(bytes, 0);
    crate::wire::lemma_bytes_are_digits(1, 0);
    if let Ok(written) = encoded_message(greeting) {
        assert(written.skip(2) =~= encoded_hello(greeting)->Ok_0);
    }
}

/// Capabilities are written by their names, with a comma and a space between each two.
/// Without any that is said.
pub proof fn lemma_names_are_joined_by_commas(list: Seq<Capability>, last: Capability)
    ensures
        joined_names(Seq::empty()) == "(none)"@,
        joined_names(seq![last]) == capability_name(last),
        list.len() > 0 ==> joined_names(list.push(last)) == joined_names(list) + seq![',', ' ']
            + capability_name(last),
{
    reveal_strlit(", ");
    assert(", "@ =~= seq![',', ' ']);
    assert(list.push(last).drop_last() =~= list);
}

} // verus!
