//! Errors of the library, kept specific near their source.

use crate::manifest::ManifestRoot;
use crate::path::SyncPath;
use crate::transport::protocol::{ProtocolVersion, VersionRange};
use vstd::prelude::*;

verus! {

/// Any error of the library.
#[derive(Debug, PartialEq, Eq)]
pub enum OniError {
    Manifest(ManifestError),
    Plan(PlanError),
    Path(EndpointError),
    Protocol(ProtocolError),
    Handshake(crate::protocol::ProtocolError),
    Transport(TransportError),
    Chunker(ChunkerError),
    Session(SessionError),
}

/// Why there is no manifest of a root.
#[derive(Debug, PartialEq, Eq)]
pub enum ManifestError {
    /// Nothing is at the root.
    MissingPath { path: SyncPath },
    /// The walk under the root failed.
    Walk { root: SyncPath },
    /// The metadata of a path could not be read.
    Metadata { path: SyncPath },
    /// A walked path does not lie under the root.
    RelativePath { path: SyncPath },
    /// A file root does not end in a name.
    MissingFileName { path: SyncPath },
}

/// Why two manifests could not be compared.
#[derive(Debug, Clone, Copy, PartialEq, Eq)]
pub enum PlanError {
    /// One root is a file and the other a directory.
    RootKindMismatch { source_root: ManifestRoot, destination_root: ManifestRoot },
    /// This cannot be planned yet.
    NotImplemented { feature: &'static str },
}

/// Why a text names no endpoint.
#[derive(Debug, PartialEq, Eq)]
pub enum EndpointError {
    /// Nothing stands between the user and the colon.
    MissingRemoteHost { spec: String },
    /// Nothing stands behind the colon.
    MissingRemotePath { spec: String },
    /// Nothing stands in front of the `@`.
    MissingRemoteUser { spec: String },
}

/// Why an envelope is refused.
#[derive(Debug, Clone, Copy, PartialEq, Eq)]
pub enum ProtocolError {
    /// A version range ends before it starts.
    InvalidVersionRange { min: ProtocolVersion, max: ProtocolVersion },
    /// A limit is zero.
    InvalidLimit { field: &'static str, value: u32 },
    /// A connection does not start with the magic.
    InvalidMagic { found: [u8; 4] },
    /// The version ranges do not overlap.
    NoSharedVersion { local: VersionRange, remote: VersionRange },
    /// A message ends before a field does.
    TruncatedMessage { message: &'static str, field: &'static str },
}

/// Why a transport failed.
#[derive(Debug, PartialEq, Eq)]
pub enum TransportError {
    /// The stream could not be read or written.
    Io { operation: &'static str },
    /// A frame is longer than the connection allows.
    FrameTooLarge { len: usize, max: usize },
    /// The stream ended where it may not.
    UnexpectedEof { operation: &'static str },
    /// The helper could not be started.
    Launch { target: String },
    /// The helper was started without one of its pipes.
    MissingPipe { pipe: &'static str, target: String },
}

/// Why a change could not be applied.
#[derive(Debug, PartialEq, Eq)]
pub enum ApplyError {
    /// A path leads out of the destination.
    PathEscape { path: SyncPath },
    /// This cannot be applied yet.
    NotImplemented { feature: &'static str },
}

/// Why a sync failed.
#[derive(Debug, PartialEq, Eq)]
pub enum SessionError {
    /// The source or the destination was not given.
    MissingOperands,
    /// Such endpoints cannot be synced yet.
    UnsupportedMode { mode: String },
    /// The strategy cannot use such a chunker yet.
    UnsupportedChunker { strategy: String, chunker: String },
    /// An operation refers to a destination that was not scanned.
    MissingDestinationManifest,
    /// A file that is to be copied into a directory has no name.
    MissingSourceName { path: SyncPath },
    /// A change could not be made.
    ApplyIo { operation: &'static str, path: SyncPath },
    /// A file could not be read for comparison.
    VerifyIo { path: SyncPath },
    /// A root could not be scanned.
    Manifest(ManifestError),
    /// The manifests could not be compared.
    Plan(PlanError),
    /// A delta could not be applied.
    Strategy(StrategyError),
    /// The transport failed.
    Transport(TransportError),
}

/// Why an input could not be cut into chunks.
#[derive(Debug, Clone, Copy, PartialEq, Eq)]
pub enum ChunkerError {
    /// A size lies outside the bounds of the chunker.
    InvalidBound { field: &'static str, value: u32, min: u32, max: u32 },
    /// The sizes do not increase.
    InvalidOrdering { min_size: u32, avg_size: u32, max_size: u32 },
    /// The input could not be read.
    FastCdcIo { operation: &'static str },
}

/// Why a delta could not be applied.
#[derive(Debug, PartialEq, Eq)]
pub enum StrategyError {
    /// A copy instruction names a block that the basis does not hold.
    InvalidBlockReference { block_index: usize },
    /// A reference names a span that reaches past the end of the basis.
    InvalidBasisSpan { offset: u64, len: usize },
    /// The file could not be cut into chunks.
    Chunker(ChunkerError),
}

} // verus!
