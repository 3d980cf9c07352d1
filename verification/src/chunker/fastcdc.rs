//! Content-defined chunks, cut by the `fastcdc` crate.
//!
//! The rest of the library sees chunks one at a time, through a callback, and
//! does not depend on the crate's own types.

use crate::error::ChunkerError;
use vstd::prelude::*;
use vstd::slice::slice_subrange;

verus! {

/// Bounds that the chunker sets to the smallest chunk size.
pub const MINIMUM_MIN: u32 = 64;

pub const MINIMUM_MAX: u32 = 1_048_576;

/// Bounds that the chunker sets to the average chunk size.
pub const AVERAGE_MIN: u32 = 256;

pub const AVERAGE_MAX: u32 = 4_194_304;

/// Bounds that the chunker sets to the largest chunk size.
pub const MAXIMUM_MIN: u32 = 1024;

pub const MAXIMUM_MAX: u32 = 16_777_216;

/// The sizes of the default configuration.
pub const DEFAULT_MIN_SIZE: u32 = 8192;

pub const DEFAULT_AVG_SIZE: u32 = 16_384;

pub const DEFAULT_MAX_SIZE: u32 = 65_536;

/// Whether the chunker takes the three sizes.
pub open spec fn sizes_fit(min_size: u32, avg_size: u32, max_size: u32) -> bool {
    &&& MINIMUM_MIN <= min_size <= MINIMUM_MAX
    &&& AVERAGE_MIN <= avg_size <= AVERAGE_MAX
    &&& MAXIMUM_MIN <= max_size <= MAXIMUM_MAX
    &&& min_size < avg_size < max_size
}

/// The sizes that chunks are cut to.
#[derive(Debug, Clone, Copy, PartialEq, Eq)]
pub struct FastCdcConfig {
    min_size: u32,
    avg_size: u32,
    max_size: u32,
}

/// The error for a size outside its bounds, if it is.
pub open spec fn bound_error(field: Seq<char>, value: u32, min: u32, max: u32) -> Option<
    (Seq<char>, u32, u32, u32),
> {
    if value < min || value > max {
        Some((field, value, min, max))
    } else {
        None
    }
}

/// Whether `error` says that a size is outside its bounds.
pub open spec fn is_bound_error(error: ChunkerError, expected: (Seq<char>, u32, u32, u32)) -> bool {
    error matches ChunkerError::InvalidBound { field, value, min, max } && field@ == expected.0
        && value == expected.1 && min == expected.2 && max == expected.3
}

impl FastCdcConfig {
    #[verifier::type_invariant]
    spec fn valid(self) -> bool {
        sizes_fit(self.min_size, self.avg_size, self.max_size)
    }

    pub closed spec fn spec_min_size(self) -> u32 {
        self.min_size
    }

    pub closed spec fn spec_avg_size(self) -> u32 {
        self.avg_size
    }

    pub closed spec fn spec_max_size(self) -> u32 {
        self.max_size
    }

    /// The configuration with the given sizes. Each has to lie within its
    /// bounds, and they have to increase.
    pub fn new(min_size: u32, avg_size: u32, max_size: u32) -> (config: Result<
        Self,
        ChunkerError,
    >)
        ensures
            match bound_error("min-size"@, min_size, MINIMUM_MIN, MINIMUM_MAX) {
                Some(expected) => config matches Err(error) && is_bound_error(error, expected),
                None => match bound_error("avg-size"@, avg_size, AVERAGE_MIN, AVERAGE_MAX) {
                    Some(expected) => config matches Err(error) && is_bound_error(error, expected),
                    None => match bound_error("max-size"@, max_size, MAXIMUM_MIN, MAXIMUM_MAX) {
                        Some(expected) => config matches Err(error) && is_bound_error(
                            error,
                            expected,
                        ),
                        None => if min_size < avg_size < max_size {
                            config matches Ok(found) && found.spec_min_size() == min_size
                                && found.spec_avg_size() == avg_size && found.spec_max_size()
                                == max_size
                        } else {
                            config == Err::<Self, ChunkerError>(
                                ChunkerError::InvalidOrdering { min_size, avg_size, max_size },
                            )
                        },
                    },
                },
            },
            config is Ok <==> 64 <= min_size <= 1_048_576 && 256 <= avg_size <= 4_194_304 && 1024
                <= max_size <= 16_777_216 && min_size < avg_size < max_size,
    {
        if let Err(error) = Self::validate_bounds("min-size", min_size, MINIMUM_MIN, MINIMUM_MAX) {
            return Err(error);
        }
        if let Err(error) = Self::validate_bounds("avg-size", avg_size, AVERAGE_MIN, AVERAGE_MAX) {
            return Err(error);
        }
        if let Err(error) = Self::validate_bounds("max-size", max_size, MAXIMUM_MIN, MAXIMUM_MAX) {
            return Err(error);
        }
        if !(min_size < avg_size && avg_size < max_size) {
            return Err(ChunkerError::InvalidOrdering { min_size, avg_size, max_size });
        }
        Ok(FastCdcConfig { min_size, avg_size, max_size })
    }

    pub fn min_size(self) -> (size: u32)
        ensures
            size == self.spec_min_size(),
    {
        self.min_size
    }

    pub fn avg_size(self) -> (size: u32)
        ensures
            size == self.spec_avg_size(),
    {
        self.avg_size
    }

    pub fn max_size(self) -> (size: u32)
        ensures
            size == self.spec_max_size(),
    {
        self.max_size
    }

    fn validate_bounds(field: &'static str, value: u32, min: u32, max: u32) -> (outcome: Result<
        (),
        ChunkerError,
    >)
        ensures
            match bound_error(field@, value, min, max) {
                Some(expected) => outcome matches Err(error) && is_bound_error(error, expected),
                None => outcome is Ok,
            },
    {
        if value < min || value > max {
            return Err(ChunkerError::InvalidBound { field, value, min, max });
        }
        Ok(())
    }
}

impl Default for FastCdcConfig {
    fn default() -> (config: Self)
        ensures
            config.spec_min_size() == DEFAULT_MIN_SIZE,
            config.spec_avg_size() == DEFAULT_AVG_SIZE,
            config.spec_max_size() == DEFAULT_MAX_SIZE,
    {
        FastCdcConfig {
            min_size: DEFAULT_MIN_SIZE,
            avg_size: DEFAULT_AVG_SIZE,
            max_size: DEFAULT_MAX_SIZE,
        }
    }
}

/// One chunk of an input.
#[derive(Debug, Clone, Copy, PartialEq, Eq)]
pub struct Chunk {
    /// The chunker's rolling hash at the end of the chunk.
    pub hash: u64,
    /// Where the chunk starts in the input.
    pub offset: u64,
    /// How many bytes the chunk has.
    pub length: usize,
}

/// The hash, offset and length of a chunk.
pub open spec fn cut_of(chunk: Chunk) -> (u64, u64, usize) {
    (chunk.hash, chunk.offset, chunk.length)
}

/// The hash, offset and length of each chunk.
pub open spec fn cuts_of(chunks: Seq<Chunk>) -> Seq<(u64, u64, usize)> {
    chunks.map_values(|chunk: Chunk| cut_of(chunk))
}

/// The hash, offset and length of each chunk that FastCDC cuts `data` into.
pub uninterp spec fn fastcdc_cuts(
    data: Seq<u8>,
    min_size: u32,
    avg_size: u32,
    max_size: u32,
) -> Seq<(u64, u64, usize)>;

/// Whether the chunks lie end to end from the start of `len` bytes to their end,
/// none of them empty or longer than `max_size`.
pub open spec fn tiles(cuts: Seq<(u64, u64, usize)>, len: int, max_size: int) -> bool {
    &&& cuts.len() == 0 <==> len == 0
    &&& forall|k: int|
        #![trigger cuts[k]]
        0 <= k < cuts.len() ==> 0 < cuts[k].2 <= max_size && cuts[k].1 + cuts[k].2 <= len
    &&& forall|j: int, k: int|
        #![trigger cuts[j], cuts[k]]
        0 <= j < cuts.len() && 0 <= k < cuts.len() && k == j + 1 ==> cuts[k].1 == cuts[j].1
            + cuts[j].2
    &&& cuts.len() > 0 ==> cuts[0].1 == 0 && cuts.last().1 + cuts.last().2 == len
}

/// Cuts `data` with `fastcdc::v2020::FastCDC`. The claim: the chunks depend on the
/// data and the sizes alone, and they cover the data end to end. Where exactly it
/// cuts, and what the hashes are, is left unsaid.
#[verifier::external_body]
fn cut_in_memory(data: &[u8], min_size: u32, avg_size: u32, max_size: u32) -> (chunks: Vec<Chunk>)
    requires
        sizes_fit(min_size, avg_size, max_size),
    ensures
        cuts_of(chunks@) == fastcdc_cuts(data@, min_size, avg_size, max_size),
        tiles(cuts_of(chunks@), data@.len() as int, max_size as int),
{
    fastcdc::v2020::FastCDC::new(data, min_size, avg_size, max_size).map(
        |chunk| Chunk { hash: chunk.hash, offset: chunk.offset as u64, length: chunk.length },
    ).collect()
}

/// An error of the streaming chunker.
#[verifier::external_type_specification]
#[verifier::external_body]
pub struct ExStreamError(fastcdc::v2020::Error);

/// Cuts `data` with `fastcdc::v2020::StreamCDC`, which reads it piece by piece.
/// The claim: reading from memory does not fail, and the chunks are the same as
/// those of the in-memory chunker.
#[verifier::external_body]
fn cut_streaming(data: &[u8], min_size: u32, avg_size: u32, max_size: u32) -> (chunks: Result<
    Vec<Chunk>,
    fastcdc::v2020::Error,
>)
    requires
        sizes_fit(min_size, avg_size, max_size),
    ensures
        chunks is Ok,
        cuts_of(chunks->Ok_0@) == fastcdc_cuts(data@, min_size, avg_size, max_size),
        tiles(cuts_of(chunks->Ok_0@), data@.len() as int, max_size as int),
{
    fastcdc::v2020::StreamCDC::new(data, min_size, avg_size, max_size).map(
        |result| {
            result.map(
                |chunk| Chunk { hash: chunk.hash, offset: chunk.offset, length: chunk.length },
            )
        },
    ).collect()
}

/// The chunks that `data` is cut into.
pub open spec fn chunks_in(data: Seq<u8>, config: FastCdcConfig) -> Seq<(u64, u64, usize)> {
    fastcdc_cuts(data, config.spec_min_size(), config.spec_avg_size(), config.spec_max_size())
}

/// The bytes of a chunk of `data`.
pub open spec fn bytes_of(data: Seq<u8>, cut: (u64, u64, usize)) -> Seq<u8> {
    data.subrange(cut.1 as int, cut.1 + cut.2)
}

/// Cuts an input that is in memory as a whole.
pub fn slice_chunks(data: &[u8], config: FastCdcConfig) -> (chunks: Vec<Chunk>)
    ensures
        cuts_of(chunks@) == chunks_in(data@, config),
        tiles(cuts_of(chunks@), data@.len() as int, config.spec_max_size() as int),
{
    proof {
        use_type_invariant(&config);
    }
    cut_in_memory(data, config.min_size, config.avg_size, config.max_size)
}

/// Cuts an input that is read piece by piece.
pub fn read_chunks(data: &[u8], config: FastCdcConfig) -> (chunks: Result<Vec<Chunk>, ChunkerError>)
    ensures
        chunks matches Ok(found) && cuts_of(found@) == chunks_in(data@, config) && tiles(
            cuts_of(found@),
            data@.len() as int,
            config.spec_max_size() as int,
        ),
{
    proof {
        use_type_invariant(&config);
    }
    match cut_streaming(data, config.min_size, config.avg_size, config.max_size) {
        Ok(chunks) => Ok(chunks),
        Err(_) => Err(ChunkerError::FastCdcIo { operation: "read streaming FastCDC chunk" }),
    }
}

/// Whether `reply` is something that `handler` may answer a chunk with.
pub open spec fn answers<E, F: FnMut(Chunk, &[u8]) -> Result<(), E>>(
    handler: F,
    chunk: Chunk,
    bytes: &[u8],
    reply: Result<(), E>,
) -> bool {
    call_ensures(handler, (chunk, bytes), reply)
}

/// Whether `handler` may answer the chunk of `data` given by `cut` with success.
pub open spec fn accepts<E, F: FnMut(Chunk, &[u8]) -> Result<(), E>>(
    handler: F,
    data: Seq<u8>,
    cut: (u64, u64, usize),
) -> bool {
    exists|chunk: Chunk, bytes: &[u8], reply: Result<(), E>| #[trigger]
        answers(handler, chunk, bytes, reply) && cut_of(chunk) == cut && bytes@ == bytes_of(
            data,
            cut,
        ) && reply is Ok
}

/// Whether `handler` may accept the first `k` chunks and answer the next with
/// `reply`.
pub open spec fn stops<E, F: FnMut(Chunk, &[u8]) -> Result<(), E>>(
    handler: F,
    data: Seq<u8>,
    cuts: Seq<(u64, u64, usize)>,
    k: int,
    reply: Result<(), E>,
) -> bool {
    &&& 0 <= k < cuts.len()
    &&& exists|chunk: Chunk, bytes: &[u8]| #[trigger]
        answers(handler, chunk, bytes, reply) && cut_of(chunk) == cuts[k] && bytes@ == bytes_of(
            data,
            cuts[k],
        )
    &&& forall|m: int| 0 <= m < k ==> accepts::<E, F>(handler, data, #[trigger] cuts[m])
}

/// Whether `outcome` is what becomes of handing the chunks of `data` to
/// `handler` one by one, up to the first that it does not accept.
pub open spec fn hands_out<E, F: FnMut(Chunk, &[u8]) -> Result<(), E>>(
    handler: F,
    data: Seq<u8>,
    cuts: Seq<(u64, u64, usize)>,
    outcome: Result<(), E>,
) -> bool {
    if outcome is Ok {
        forall|k: int| 0 <= k < cuts.len() ==> accepts::<E, F>(handler, data, #[trigger] cuts[k])
    } else {
        exists|k: int| #[trigger] stops(handler, data, cuts, k, outcome)
    }
}

/// Hands out the chunks of `data` in their order.
fn hand_out<E, F>(data: &[u8], chunks: Vec<Chunk>, on_chunk: F) -> (outcome: Result<(), E>) where
    F: FnMut(Chunk, &[u8]) -> Result<(), E>,

    requires
        forall|k: int|
            #![trigger chunks@[k]]
            0 <= k < chunks@.len() ==> chunks@[k].offset + chunks@[k].length <= data@.len(),
        forall|chunk: Chunk, bytes: &[u8]| #[trigger] call_requires(on_chunk, (chunk, bytes)),
    ensures
        hands_out(on_chunk, data@, cuts_of(chunks@), outcome),
{
    let ghost cuts = cuts_of(chunks@);
    let mut handler = on_chunk;
    let mut index: usize = 0;
    while index < chunks.len()
        invariant
            index <= chunks@.len(),
            cuts == cuts_of(chunks@),
            handler == on_chunk,
            forall|k: int|
                #![trigger chunks@[k]]
                0 <= k < chunks@.len() ==> chunks@[k].offset + chunks@[k].length <= data@.len(),
            forall|chunk: Chunk, bytes: &[u8]| #[trigger] call_requires(on_chunk, (chunk, bytes)),
            forall|k: int| 0 <= k < index ==> accepts::<E, F>(on_chunk, data@, #[trigger] cuts[k]),
        decreases chunks.len() - index,
    {
        let chunk = chunks[index];
        assert(chunks@[index as int].offset + chunk.length <= data.len());
        let start: usize = chunk.offset as usize;
        let bytes = slice_subrange(data, start, start + chunk.length);
        assert(cuts[index as int] == cut_of(chunk));
        let reply: Result<(), E> = handler(chunk, bytes);
        assert(answers(on_chunk, chunk, bytes, reply));
        if reply.is_err() {
            assert(stops(on_chunk, data@, cuts, index as int, reply));
            return reply;
        }
        assert(accepts::<E, F>(on_chunk, data@, cuts[index as int]));
        index = index + 1;
    }
    Ok(())
}

/// Hands each chunk of an input that is in memory, and its bytes, to `on_chunk`.
/// The first error stops the chunker and is returned.
///
/// The chunks cover the input end to end.
///
/// The contract says what `on_chunk` answered to each chunk. That it was asked once
/// for each of them, in their order, is left unsaid: a contract cannot speak of what
/// a callback remembers.
pub fn chunk_slice<E, F>(data: &[u8], config: FastCdcConfig, on_chunk: F) -> (outcome: Result<
    (),
    E,
>) where E: From<ChunkerError>, F: FnMut(Chunk, &[u8]) -> Result<(), E>
    requires
        forall|chunk: Chunk, bytes: &[u8]| #[trigger] call_requires(on_chunk, (chunk, bytes)),
    ensures
        hands_out(on_chunk, data@, chunks_in(data@, config), outcome),
        tiles(
            chunks_in(data@, config),
            data@.len() as int,
            config.spec_max_size() as int,
        ),
{
    let chunks = slice_chunks(data, config);
    assert forall|k: int| #![trigger chunks@[k]] 0 <= k < chunks@.len() implies chunks@[k].offset
        + chunks@[k].length <= data@.len() by {
        assert(cuts_of(chunks@)[k] == cut_of(chunks@[k]));
    }
    hand_out(data, chunks, on_chunk)
}

/// Hands each chunk of an input that is read piece by piece, and its bytes, to
/// `on_chunk`. The first error stops the chunker and is returned. The chunks cover
/// the input end to end. As with [`chunk_slice`], how often `on_chunk` was asked is left unsaid.
pub fn chunk_read<E, F>(data: &[u8], config: FastCdcConfig, on_chunk: F) -> (outcome: Result<
    (),
    E,
>) where E: From<ChunkerError>, F: FnMut(Chunk, &[u8]) -> Result<(), E>
    requires
        forall|chunk: Chunk, bytes: &[u8]| #[trigger] call_requires(on_chunk, (chunk, bytes)),
    ensures
        hands_out(on_chunk, data@, chunks_in(data@, config), outcome),
        tiles(
            chunks_in(data@, config),
            data@.len() as int,
            config.spec_max_size() as int,
        ),
{
    let chunks = match read_chunks(data, config) {
        Ok(chunks) => chunks,
        Err(error) => {
            return Err(E::from(error));
        },
    };
    assert forall|k: int| #![trigger chunks@[k]] 0 <= k < chunks@.len() implies chunks@[k].offset
        + chunks@[k].length <= data@.len() by {
        assert(cuts_of(chunks@)[k] == cut_of(chunks@[k]));
    }
    hand_out(data, chunks, on_chunk)
}

/// The bytes of the chunks from `k` on, put together.
pub open spec fn rejoined(data: Seq<u8>, cuts: Seq<(u64, u64, usize)>, k: int) -> Seq<u8>
    decreases cuts.len() - k,
{
    if k < 0 || k >= cuts.len() {
        Seq::empty()
    } else {
        bytes_of(data, cuts[k]) + rejoined(data, cuts, k + 1)
    }
}

proof fn lemma_rejoined_from(data: Seq<u8>, cuts: Seq<(u64, u64, usize)>, max_size: int, k: int)
    requires
        tiles(cuts, data.len() as int, max_size),
        0 <= k < cuts.len(),
    ensures
        rejoined(data, cuts, k) == data.skip(cuts[k].1 as int),
    decreases cuts.len() - k,
{
    if k + 1 < cuts.len() {
        lemma_rejoined_from(data, cuts, max_size, k + 1);
        assert(cuts[k + 1].1 == cuts[k].1 + cuts[k].2);
    } else {
        assert(cuts.last() == cuts[k]);
        assert(rejoined(data, cuts, k + 1) =~= Seq::<u8>::empty());
    }
    assert(rejoined(data, cuts, k) =~= data.skip(cuts[k].1 as int));
}

/// Chunks cover their input without gaps: put together in their order they are
/// the input again.
pub proof fn lemma_chunks_cover_the_input(
    data: Seq<u8>,
    cuts: Seq<(u64, u64, usize)>,
    max_size: int,
)
    requires
        tiles(cuts, data.len() as int, max_size),
    ensures
        rejoined(data, cuts, 0) == data,
{
    if cuts.len() > 0 {
        lemma_rejoined_from(data, cuts, max_size, 0);
        assert(data.skip(0) =~= data);
    } else {
        assert(rejoined(data, cuts, 0) =~= data);
    }
}

/// A size is refused exactly if it lies outside its bounds, and the refusal says which size,
/// what it was and what the bounds are.
pub proof fn lemma_bounds_are_told(field: Seq<char>, value: u32, min: u32, max: u32)
    ensures
        bound_error(field, value, min, max) is None <==> min <= value <= max,
        bound_error(field, value, min, max) matches Some(expected) ==> expected == (
            field,
            value,
            min,
            max,
        ),
{
}

/// If the chunks were handed out, every one was accepted. If not, what was returned is the
/// answer to one of the chunks and its bytes, is no success, and all chunks in front of that
/// one were accepted. So nothing is handed out behind a chunk that is never accepted.
pub proof fn lemma_refusals_end_the_chunks<E, F: FnMut(Chunk, &[u8]) -> Result<(), E>>(
    handler: F,
    data: Seq<u8>,
    cuts: Seq<(u64, u64, usize)>,
    outcome: Result<(), E>,
    refused: int,
)
    requires
        hands_out(handler, data, cuts, outcome),
    ensures
        outcome is Ok ==> forall|k: int|
            0 <= k < cuts.len() ==> accepts::<E, F>(handler, data, #[trigger] cuts[k]),
        outcome is Err ==> exists|k: int|
            #![trigger cuts[k]]
            0 <= k < cuts.len() && (exists|chunk: Chunk, bytes: &[u8]| #[trigger]
                answers(handler, chunk, bytes, outcome) && chunk.hash == cuts[k].0 && chunk.offset
                    == cuts[k].1 && chunk.length == cuts[k].2 && bytes@ == data.subrange(
                    cuts[k].1 as int,
                    cuts[k].1 + cuts[k].2,
                )) && forall|m: int|
                0 <= m < k ==> accepts::<E, F>(handler, data, #[trigger] cuts[m]),
        0 <= refused < cuts.len() && !accepts::<E, F>(handler, data, cuts[refused]) ==> outcome
            is Err,
{
    if outcome is Err {
        let k = choose|k: int| #[trigger] stops(handler, data, cuts, k, outcome);
        let (chunk, bytes) = choose|chunk: Chunk, bytes: &[u8]| #[trigger]
            answers(handler, chunk, bytes, outcome) && cut_of(chunk) == cuts[k] && bytes@
                == bytes_of(data, cuts[k]);
        assert(answers(handler, chunk, bytes, outcome));
        assert(0 <= k < cuts.len());
    }
}

} // verus!
