//! Chunks of files, and what cuts them.

use crate::error::PlanError;
use crate::path::SyncPath;
use std::ops::Range;
use vstd::prelude::*;

verus! {

/// One chunk of a file.
#[derive(Debug, Clone, Copy, PartialEq, Eq)]
pub struct Chunk {
    pub offset: u64,
    pub length: u32,
    pub fingerprint: u64,
}

impl Chunk {
    /// The bytes of the file that the chunk covers.
    pub fn byte_range(&self) -> (range: Range<u64>)
        requires
            self.offset + self.length <= u64::MAX,
        ensures
            range.start == self.offset,
            range.end == self.offset + self.length,
    {
        self.offset..(self.offset + self.length as u64)
    }
}

/// The sizes that chunks are cut to.
#[derive(Debug, Clone, Copy, PartialEq, Eq, Structural)]
pub struct ChunkingConfig {
    pub min_size: u32,
    pub avg_size: u32,
    pub max_size: u32,
}

impl ChunkingConfig {
    /// The sizes that suit FastCDC.
    pub fn fastcdc_defaults() -> (config: Self)
        ensures
            config == (ChunkingConfig { min_size: 16384, avg_size: 65536, max_size: 262144 }),
    {
        ChunkingConfig { min_size: 16384, avg_size: 65536, max_size: 262144 }
    }
}

/// Something that cuts files into chunks.
pub trait Chunker: Send + Sync {
    /// The name of the algorithm.
    fn algorithm(&self) -> &'static str;

    /// The sizes that it cuts to.
    fn config(&self) -> ChunkingConfig;

    /// The chunks of the file at `path`.
    fn chunk_file(&self, path: &SyncPath) -> Result<Vec<Chunk>, PlanError>;
}

/// A chunker that is to use FastCDC.
pub struct FastCdcChunker {
    config: ChunkingConfig,
}

impl FastCdcChunker {
    pub closed spec fn spec_config(&self) -> ChunkingConfig {
        self.config
    }

    pub fn new(config: ChunkingConfig) -> (chunker: Self)
        ensures
            chunker.spec_config() == config,
    {
        FastCdcChunker { config }
    }
}

impl Default for FastCdcChunker {
    fn default() -> (chunker: Self)
        ensures
            chunker.spec_config() == (ChunkingConfig {
                min_size: 16384,
                avg_size: 65536,
                max_size: 262144,
            }),
    {
        FastCdcChunker::new(ChunkingConfig::fastcdc_defaults())
    }
}

impl Chunker for FastCdcChunker {
    fn algorithm(&self) -> (name: &'static str)
        ensures
            name@ == "fastcdc"@,
    {
        "fastcdc"
    }

    fn config(&self) -> (config: ChunkingConfig)
        ensures
            config == self.spec_config(),
    {
        self.config
    }

    fn chunk_file(&self, path: &SyncPath) -> (chunks: Result<Vec<Chunk>, PlanError>)
        ensures
            chunks matches Err(PlanError::NotImplemented { feature }) && feature@
                == "FastCDC chunking"@,
    {
        Err(PlanError::NotImplemented { feature: "FastCDC chunking" })
    }
}

} // verus!
