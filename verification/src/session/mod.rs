//! Sync requests: what is synced, and how.

pub mod local;
pub mod outcome;
pub mod preview;

use crate::endpoint::{parse_endpoint, Endpoint, LocalEndpoint};
use crate::error::{EndpointError, SessionError};
use crate::plan::PlanOptions;
use vstd::prelude::*;

verus! {

/// What a session error says.
pub enum Trouble {
    MissingOperands,
    UnsupportedMode { mode: Seq<char> },
    UnsupportedChunker { strategy: Seq<char>, chunker: Seq<char> },
    MissingDestinationManifest,
    MissingSourceName { path: Seq<crate::path::Name> },
    ApplyIo { operation: Seq<char>, path: Seq<crate::path::Name> },
    VerifyIo { path: Seq<crate::path::Name> },
    Manifest(crate::manifest::Failure),
    Plan(crate::error::PlanError),
    Strategy(crate::error::StrategyError),
    Transport(crate::transport::stdio::Failure),
}

impl View for SessionError {
    type V = Trouble;

    open spec fn view(&self) -> Trouble {
        match self {
            SessionError::MissingOperands => Trouble::MissingOperands,
            SessionError::UnsupportedMode { mode } => Trouble::UnsupportedMode { mode: mode@ },
            SessionError::UnsupportedChunker { strategy, chunker } => Trouble::UnsupportedChunker {
                strategy: strategy@,
                chunker: chunker@,
            },
            SessionError::MissingDestinationManifest => Trouble::MissingDestinationManifest,
            SessionError::MissingSourceName { path } => Trouble::MissingSourceName { path: path@ },
            SessionError::ApplyIo { operation, path } => Trouble::ApplyIo {
                operation: operation@,
                path: path@,
            },
            SessionError::VerifyIo { path } => Trouble::VerifyIo { path: path@ },
            SessionError::Manifest(error) => Trouble::Manifest(error@),
            SessionError::Plan(error) => Trouble::Plan(*error),
            SessionError::Strategy(error) => Trouble::Strategy(*error),
            SessionError::Transport(error) => Trouble::Transport(error@),
        }
    }
}

/// How a changed file is transferred.
#[derive(Debug, Clone, Copy, PartialEq, Eq, Structural)]
pub enum Strategy {
    Auto,
    Whole,
    Cdc,
}

/// The name of a strategy.
pub open spec fn strategy_name(strategy: Strategy) -> Seq<char> {
    match strategy {
        Strategy::Auto => "auto"@,
        Strategy::Whole => "whole"@,
        Strategy::Cdc => "cdc"@,
    }
}

impl Strategy {
    /// The name of the strategy.
    pub fn to_string(&self) -> (text: String)
        ensures
            text@ == strategy_name(*self),
    {
        match self {
            Strategy::Auto => "auto".to_string(),
            Strategy::Whole => "whole".to_string(),
            Strategy::Cdc => "cdc".to_string(),
        }
    }
}

/// What cuts files into chunks.
#[derive(Debug, Clone, Copy, PartialEq, Eq, Structural)]
pub enum Chunker {
    FastCdc,
    SeqCdc,
}

/// The name of a chunker.
pub open spec fn chunker_name(chunker: Chunker) -> Seq<char> {
    match chunker {
        Chunker::FastCdc => "fastcdc"@,
        Chunker::SeqCdc => "seqcdc"@,
    }
}

impl Chunker {
    /// The name of the chunker.
    pub fn to_string(&self) -> (text: String)
        ensures
            text@ == chunker_name(*self),
    {
        match self {
            Chunker::FastCdc => "fastcdc".to_string(),
            Chunker::SeqCdc => "seqcdc".to_string(),
        }
    }
}

/// How a sync is done.
#[derive(Debug, Clone, Copy, PartialEq, Eq, Structural)]
pub struct Options {
    pub plan: PlanOptions,
    pub strategy: Strategy,
    pub chunker: Chunker,
}

impl Default for Options {
    fn default() -> (options: Self)
        ensures
            options == (Options {
                plan: PlanOptions { delete_extraneous: false },
                strategy: Strategy::Auto,
                chunker: Chunker::FastCdc,
            }),
    {
        Options {
            plan: PlanOptions::default(),
            strategy: Strategy::Auto,
            chunker: Chunker::FastCdc,
        }
    }
}

/// Which ends of a sync are remote.
#[derive(Debug, Clone, Copy, PartialEq, Eq, Structural)]
pub enum Mode {
    LocalToLocal,
    LocalToRemote,
    RemoteToLocal,
    RemoteToRemote,
}

/// The mode in words.
pub open spec fn mode_name(mode: Mode) -> Seq<char> {
    match mode {
        Mode::LocalToLocal => "local -> local"@,
        Mode::LocalToRemote => "local -> remote"@,
        Mode::RemoteToLocal => "remote -> local"@,
        Mode::RemoteToRemote => "remote -> remote"@,
    }
}

impl Mode {
    /// The mode in words.
    pub fn to_string(&self) -> (text: String)
        ensures
            text@ == mode_name(*self),
    {
        match self {
            Mode::LocalToLocal => "local -> local".to_string(),
            Mode::LocalToRemote => "local -> remote".to_string(),
            Mode::RemoteToLocal => "remote -> local".to_string(),
            Mode::RemoteToRemote => "remote -> remote".to_string(),
        }
    }
}

/// What is to be synced, and how.
#[derive(Debug, Clone, PartialEq, Eq)]
pub struct Request {
    pub source: Endpoint,
    pub destination: Endpoint,
    pub options: Options,
}

/// The mode of a sync between two endpoints.
pub open spec fn mode_of(source: Endpoint, destination: Endpoint) -> Mode {
    match (source, destination) {
        (Endpoint::Local(_), Endpoint::Local(_)) => Mode::LocalToLocal,
        (Endpoint::Local(_), Endpoint::Remote(_)) => Mode::LocalToRemote,
        (Endpoint::Remote(_), Endpoint::Local(_)) => Mode::RemoteToLocal,
        (Endpoint::Remote(_), Endpoint::Remote(_)) => Mode::RemoteToRemote,
    }
}

impl Request {
    /// The request for two endpoints in writing. The source is looked at first.
    pub fn from_args(source: &str, destination: &str, options: Options) -> (request: Result<
        Self,
        EndpointError,
    >)
        ensures
            match (
                crate::endpoint::place_named(source@),
                crate::endpoint::place_named(destination@),
            ) {
                (Err(misspelling), _) => request matches Err(error) && error@ == misspelling,
                (Ok(_), Err(misspelling)) => request matches Err(error) && error@ == misspelling,
                (Ok(from), Ok(to)) => request matches Ok(found) && found.source@ == from
                    && found.destination@ == to && found.options == options,
            },
    {
        let source = match parse_endpoint(source) {
            Ok(source) => source,
            Err(error) => {
                return Err(error);
            },
        };
        let destination = match parse_endpoint(destination) {
            Ok(destination) => destination,
            Err(error) => {
                return Err(error);
            },
        };
        Ok(Request { source, destination, options })
    }

    /// Which ends of the sync are remote.
    pub fn mode(&self) -> (mode: Mode)
        ensures
            mode == mode_of(self.source, self.destination),
    {
        match (&self.source, &self.destination) {
            (Endpoint::Local(_), Endpoint::Local(_)) => Mode::LocalToLocal,
            (Endpoint::Local(_), Endpoint::Remote(_)) => Mode::LocalToRemote,
            (Endpoint::Remote(_), Endpoint::Local(_)) => Mode::RemoteToLocal,
            (Endpoint::Remote(_), Endpoint::Remote(_)) => Mode::RemoteToRemote,
        }
    }

    /// The two ends of a sync on this machine. Any other sync is refused.
    pub fn local_endpoints(&self) -> (ends: Result<
        (&LocalEndpoint, &LocalEndpoint),
        SessionError,
    >)
        ensures
            match (self.source, self.destination) {
                (Endpoint::Local(source), Endpoint::Local(destination)) => ends == Ok::<
                    (&LocalEndpoint, &LocalEndpoint),
                    SessionError,
                >((&source, &destination)),
                _ => ends matches Err(error) && error@ == (Trouble::UnsupportedMode {
                    mode: mode_name(mode_of(self.source, self.destination)),
                }),
            },
    {
        match (&self.source, &self.destination) {
            (Endpoint::Local(source), Endpoint::Local(destination)) => Ok((source, destination)),
            _ => Err(self.unsupported_mode()),
        }
    }

    fn unsupported_mode(&self) -> (error: SessionError)
        ensures
            error@ == (Trouble::UnsupportedMode {
                mode: mode_name(mode_of(self.source, self.destination)),
            }),
    {
        SessionError::UnsupportedMode { mode: self.mode().to_string() }
    }
}

/// The mode of a sync says of each end whether it is remote.
pub proof fn lemma_mode_says_which_ends_are_remote(source: Endpoint, destination: Endpoint)
    ensures
        source is Remote <==> mode_of(source, destination) == Mode::RemoteToLocal || mode_of(
            source,
            destination,
        ) == Mode::RemoteToRemote,
        destination is Remote <==> mode_of(source, destination) == Mode::LocalToRemote || mode_of(
            source,
            destination,
        ) == Mode::RemoteToRemote,
{
}

} // verus!
