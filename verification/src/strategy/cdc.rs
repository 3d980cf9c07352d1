//! Deltas over content-defined chunks.
//!
//! 1. The destination is cut into chunks, and each is hashed.
//! 2. The source is cut the same way.
//! 3. Each source chunk becomes a reference to an equal span of the destination,
//!    or a literal.
//!
//! The decisions go to a [`DeltaSink`] one by one. A caller that streams a file
//! feeds chunks to [`SignatureTable::with_chunk`] and [`emit_chunk`].

use std::collections::HashMap;

use crate::chunker::fastcdc::{read_chunks, Chunk, FastCdcConfig};
use crate::digest::{bytes_equal, strong_checksum};
use crate::error::StrategyError;
use vstd::prelude::*;
use vstd::slice::slice_subrange;

verus! {

broadcast use vstd::std_specs::hash::group_hash_axioms;

/// Where a chunk of the destination stands, and its hash.
#[derive(Debug, Clone, Copy, PartialEq, Eq)]
pub struct ChunkSignature {
    /// Where the chunk starts in the destination.
    pub offset: u64,
    /// How many bytes it has.
    pub len: usize,
    /// Its strong checksum.
    pub strong: [u8; 32],
}

/// What a signature says.
pub struct Span {
    pub offset: u64,
    pub len: usize,
    pub strong: Seq<u8>,
}

impl View for ChunkSignature {
    type V = Span;

    open spec fn view(&self) -> Span {
        Span { offset: self.offset, len: self.len, strong: self.strong@ }
    }
}

/// What the signatures say, in their order.
pub open spec fn spans_of(chunks: Seq<ChunkSignature>) -> Seq<Span> {
    chunks.map_values(|chunk: ChunkSignature| chunk@)
}

/// The signature of the chunk of `data` given by `cut`.
pub open spec fn span_at(data: Seq<u8>, cut: (u64, u64, usize)) -> Span {
    Span {
        offset: cut.1,
        len: cut.2,
        strong: crate::digest::blake3_of(crate::chunker::fastcdc::bytes_of(data, cut)),
    }
}

/// The signatures of the chunks of `data`.
pub open spec fn spans_in(data: Seq<u8>, cuts: Seq<(u64, u64, usize)>) -> Seq<Span> {
    cuts.map_values(|cut: (u64, u64, usize)| span_at(data, cut))
}

/// Whether a span is taken to hold the bytes of a chunk.
pub open spec fn same_span(span: Span, strong: Seq<u8>, len: int) -> bool {
    span.strong == strong && span.len == len
}

/// The first span from `from` on that is taken to hold a chunk of the given hash
/// and length.
pub open spec fn first_span(spans: Seq<Span>, strong: Seq<u8>, len: int, from: int) -> Option<int>
    decreases spans.len() - from,
{
    if from < 0 || from >= spans.len() {
        None
    } else if same_span(spans[from], strong, len) {
        Some(from)
    } else {
        first_span(spans, strong, len, from + 1)
    }
}

proof fn lemma_first_span_found(
    spans: Seq<Span>,
    strong: Seq<u8>,
    len: int,
    from: int,
    found: int,
)
    requires
        0 <= from <= found < spans.len(),
        same_span(spans[found], strong, len),
        forall|k: int| from <= k < found ==> !same_span(#[trigger] spans[k], strong, len),
    ensures
        first_span(spans, strong, len, from) == Some(found),
    decreases found - from,
{
    if from < found {
        lemma_first_span_found(spans, strong, len, from + 1, found);
    }
}

proof fn lemma_first_span_absent(spans: Seq<Span>, strong: Seq<u8>, len: int, from: int)
    requires
        0 <= from <= spans.len(),
        forall|k: int| from <= k < spans.len() ==> !same_span(#[trigger] spans[k], strong, len),
    ensures
        first_span(spans, strong, len, from) is None,
    decreases spans.len() - from,
{
    if from < spans.len() {
        lemma_first_span_absent(spans, strong, len, from + 1);
    }
}

/// The first matching span is one that matches, and there is one if any does.
proof fn lemma_first_span(spans: Seq<Span>, strong: Seq<u8>, len: int, from: int)
    requires
        0 <= from,
    ensures
        match first_span(spans, strong, len, from) {
            Some(k) => from <= k < spans.len() && same_span(spans[k], strong, len),
            None => forall|k: int|
                from <= k < spans.len() ==> !same_span(#[trigger] spans[k], strong, len),
        },
    decreases spans.len() - from,
{
    if from < spans.len() && !same_span(spans[from], strong, len) {
        lemma_first_span(spans, strong, len, from + 1);
    }
}

/// The key under which a hash is listed: its first eight bytes.
spec fn key_of(strong: Seq<u8>) -> u64 {
    (strong[0] as int * 0x100_0000_0000_0000 + strong[1] as int * 0x1_0000_0000_0000
        + strong[2] as int * 0x100_0000_0000 + strong[3] as int * 0x1_0000_0000 + strong[4] as int
        * 0x100_0000 + strong[5] as int * 0x1_0000 + strong[6] as int * 0x100
        + strong[7] as int) as u64
}

fn table_key(strong: &[u8; 32]) -> (key: u64)
    ensures
        key == key_of(strong@),
{
    strong[0] as u64 * 0x100_0000_0000_0000 + strong[1] as u64 * 0x1_0000_0000_0000
        + strong[2] as u64 * 0x100_0000_0000 + strong[3] as u64 * 0x1_0000_0000 + strong[4] as u64
        * 0x100_0000 + strong[5] as u64 * 0x1_0000 + strong[6] as u64 * 0x100 + strong[7] as u64
}

/// Whether `list` holds, in order, the positions of the spans with the given key.
spec fn lists_candidates(list: Seq<usize>, spans: Seq<Span>, key: u64) -> bool {
    &&& forall|i: int, j: int| 0 <= i < j < list.len() ==> list[i] < list[j]
    &&& forall|i: int|
        0 <= i < list.len() ==> #[trigger] list[i] < spans.len() && key_of(
            spans[list[i] as int].strong,
        ) == key
    &&& forall|k: int|
        0 <= k < spans.len() && key_of((#[trigger] spans[k]).strong) == key ==> list.contains(
            k as usize,
        )
}

spec fn list_at(index: Map<u64, Vec<usize>>, key: u64) -> Seq<usize> {
    if index.contains_key(key) {
        index[key]@
    } else {
        Seq::empty()
    }
}

/// The chunks of a destination, indexed by their hashes.
#[derive(Debug, PartialEq, Eq)]
pub struct SignatureTable {
    /// The chunks in the order of the destination.
    chunks: Vec<ChunkSignature>,
    /// The positions of the chunks under the key of each hash. One key may have
    /// several, since equal contents can occur more than once.
    by_hash: HashMap<u64, Vec<usize>>,
}

impl SignatureTable {
    #[verifier::type_invariant]
    spec fn indexed(self) -> bool {
        forall|key: u64|
            lists_candidates(#[trigger] list_at(self.by_hash@, key), spans_of(self.chunks@), key)
    }

    pub closed spec fn spans(&self) -> Seq<Span> {
        spans_of(self.chunks@)
    }

    /// The table of an empty destination.
    pub fn empty() -> (table: Self)
        ensures
            table.spans() == Seq::<Span>::empty(),
    {
        let table = SignatureTable { chunks: Vec::new(), by_hash: HashMap::new() };
        assert(table.spans() =~= Seq::<Span>::empty());
        table
    }

    /// The chunks in the order of the destination.
    pub fn chunks(&self) -> (chunks: &[ChunkSignature])
        ensures
            spans_of(chunks@) == self.spans(),
    {
        self.chunks.as_slice()
    }

    /// Records the next chunk of the destination.
    pub fn with_chunk(self, offset: u64, bytes: &[u8]) -> (table: Self)
        ensures
            table.spans() == self.spans().push(
                (Span {
                    offset,
                    len: bytes@.len() as usize,
                    strong: crate::digest::blake3_of(bytes@),
                }),
            ),
    {
        proof {
            use_type_invariant(&self);
        }
        let ghost before = self;
        let SignatureTable { mut chunks, mut by_hash } = self;
        let strong = strong_checksum(bytes);
        let key: u64 = table_key(&strong);
        let position: usize = chunks.len();
        let mut list = match by_hash.remove(&key) {
            Some(list) => list,
            None => Vec::new(),
        };
        assert(list@ == list_at(before.by_hash@, key));
        list.push(position);
        by_hash.insert(key, list);
        chunks.push(ChunkSignature { offset, len: bytes.len(), strong });
        proof {
            let (old_spans, spans) = (spans_of(before.chunks@), spans_of(chunks@));
            assert(spans =~= old_spans.push(
                (Span { offset, len: bytes@.len() as usize, strong: strong@ }),
            ));
            assert forall|other: u64|
                lists_candidates(#[trigger] list_at(by_hash@, other), spans, other) by {
                let old_list = list_at(before.by_hash@, other);
                let new_list = list_at(by_hash@, other);
                assert(lists_candidates(old_list, old_spans, other));
                assert forall|k: int|
                    0 <= k < spans.len() && key_of((#[trigger] spans[k]).strong)
                        == other implies new_list.contains(k as usize) by {
                    if k < position {
                        assert(old_spans[k] == spans[k]);
                        let i = choose|i: int|
                            0 <= i < old_list.len() && old_list[i] == k as usize;
                        assert(new_list[i] == k as usize);
                    } else {
                        assert(new_list.last() == position);
                    }
                }
            }
        }
        SignatureTable { chunks, by_hash }
    }
}

/// The first chunk of the table with the given hash and length.
pub fn find_match<'a>(
    signatures: &'a SignatureTable,
    strong: [u8; 32],
    len: usize,
) -> (chunk: Option<&'a ChunkSignature>)
    ensures
        match first_span(signatures.spans(), strong@, len as int, 0) {
            Some(k) => chunk matches Some(found) && found@ == signatures.spans()[k],
            None => chunk is None,
        },
{
    proof {
        use_type_invariant(signatures);
    }
    let key: u64 = table_key(&strong);
    let ghost spans = spans_of(signatures.chunks@);
    let ghost list = list_at(signatures.by_hash@, key);
    assert(lists_candidates(list, spans, key));
    assert(spans.len() == signatures.chunks.len());
    let candidates = match signatures.by_hash.get(&key) {
        Some(candidates) => candidates,
        None => {
            proof {
                assert forall|k: int| 0 <= k < spans.len() implies !same_span(
                    #[trigger] spans[k],
                    strong@,
                    len as int,
                ) by {
                    if spans[k].strong == strong@ {
                        assert(list.contains(k as usize));
                    }
                }
                lemma_first_span_absent(spans, strong@, len as int, 0);
            }
            return None;
        },
    };
    let mut index: usize = 0;
    while index < candidates.len()
        invariant
            index <= candidates@.len(),
            candidates@ == list,
            spans == spans_of(signatures.chunks@),
            key == key_of(strong@),
            lists_candidates(list, spans, key),
            forall|i: int|
                0 <= i < index ==> !same_span(
                    spans[#[trigger] list[i] as int],
                    strong@,
                    len as int,
                ),
        decreases candidates.len() - index,
    {
        let position: usize = candidates[index];
        let chunk = &signatures.chunks[position];
        assert(spans[position as int] == chunk@);
        if chunk.len == len && bytes_equal(&chunk.strong, &strong) {
            proof {
                assert forall|k: int| 0 <= k < position implies !same_span(
                    #[trigger] spans[k],
                    strong@,
                    len as int,
                ) by {
                    if spans[k].strong == strong@ {
                        let i = choose|i: int| 0 <= i < list.len() && list[i] == k as usize;
                        assert(list[index as int] == position);
                        if i >= index {
                            assert(list[index as int] <= list[i]);
                        }
                    }
                }
                lemma_first_span_found(spans, strong@, len as int, 0, position as int);
            }
            return Some(chunk);
        }
        index = index + 1;
    }
    proof {
        assert(spans.len() == signatures.chunks.len());
        assert forall|k: int| 0 <= k < spans.len() implies !same_span(
            #[trigger] spans[k],
            strong@,
            len as int,
        ) by {
            if spans[k].strong == strong@ {
                let i = choose|i: int| 0 <= i < list.len() && list[i] == k as usize;
                assert(!same_span(spans[list[i] as int], strong@, len as int));
            }
        }
        lemma_first_span_absent(spans, strong@, len as int, 0);
    }
    None
}

/// What became of one source chunk.
pub enum Emission {
    /// The chunk is new.
    Literal(Seq<u8>),
    /// The chunk is an equal span of the destination.
    Reference { offset: u64, len: usize },
}

/// What becomes of a source chunk.
pub open spec fn emission(spans: Seq<Span>, bytes: Seq<u8>) -> Emission {
    match first_span(spans, crate::digest::blake3_of(bytes), bytes.len() as int, 0) {
        Some(k) => Emission::Reference { offset: spans[k].offset, len: spans[k].len },
        None => Emission::Literal(bytes),
    }
}

/// What becomes of the chunks of a source, in their order.
pub open spec fn emissions(
    spans: Seq<Span>,
    source: Seq<u8>,
    cuts: Seq<(u64, u64, usize)>,
) -> Seq<Emission> {
    cuts.map_values(
        |cut: (u64, u64, usize)|
            emission(spans, crate::chunker::fastcdc::bytes_of(source, cut)),
    )
}

/// How many chunks were referenced, how many were literal, and how many bytes
/// those had.
#[derive(Debug, Clone, Copy, PartialEq, Eq)]
pub struct DeltaStats {
    pub reference_chunks: usize,
    pub literal_chunks: usize,
    pub literal_bytes: u64,
}

impl Default for DeltaStats {
    fn default() -> (stats: Self)
        ensures
            stats == (DeltaStats { reference_chunks: 0, literal_chunks: 0, literal_bytes: 0 }),
    {
        DeltaStats { reference_chunks: 0, literal_chunks: 0, literal_bytes: 0 }
    }
}

/// How many of the emissions are references.
pub open spec fn reference_count(emitted: Seq<Emission>) -> int
    decreases emitted.len(),
{
    if emitted.len() == 0 {
        0
    } else {
        reference_count(emitted.drop_last()) + if emitted.last() is Reference {
            1int
        } else {
            0
        }
    }
}

/// How many bytes the literals among the emissions have.
pub open spec fn literal_len(emitted: Seq<Emission>) -> int
    decreases emitted.len(),
{
    if emitted.len() == 0 {
        0
    } else {
        literal_len(emitted.drop_last()) + match emitted.last() {
            Emission::Literal(bytes) => bytes.len() as int,
            Emission::Reference { .. } => 0,
        }
    }
}

/// Whether `stats` count the emissions.
pub open spec fn counts(stats: DeltaStats, emitted: Seq<Emission>) -> bool {
    &&& stats.reference_chunks == reference_count(emitted)
    &&& stats.reference_chunks + stats.literal_chunks == emitted.len()
    &&& stats.literal_bytes == literal_len(emitted)
}

/// What a sink has taken after it was told of `emission`: that too, unless it was
/// refused.
pub open spec fn told(
    before: Seq<Emission>,
    emission: Emission,
    outcome: Result<(), StrategyError>,
) -> Seq<Emission> {
    match outcome {
        Ok(()) => before.push(emission),
        Err(_) => before,
    }
}

/// Where the decisions about source chunks go.
pub trait DeltaSink {
    /// What the sink has taken so far. A sink has to say so: with nothing here the
    /// contracts of its methods cannot be met.
    open spec fn emitted(&self) -> Seq<Emission> {
        Seq::empty()
    }

    /// Whether the sink takes everything that it is told.
    open spec fn unfailing(&self) -> bool {
        false
    }

    /// The error that the sink gave last.
    open spec fn refusal(&self) -> Option<StrategyError> {
        None
    }

    /// Takes new bytes of the source. What is refused is not taken.
    fn literal(&mut self, bytes: &[u8]) -> (outcome: Result<(), StrategyError>)
        ensures
            final(self).emitted() == told(old(self).emitted(), Emission::Literal(bytes@), outcome),
            outcome matches Err(error) ==> final(self).refusal() == Some(error),
            old(self).unfailing() ==> outcome is Ok && final(self).unfailing(),
    ;

    /// Takes a span of the destination that is used again. What is refused is not
    /// taken.
    fn reference(&mut self, offset: u64, len: usize) -> (outcome: Result<(), StrategyError>)
        ensures
            final(self).emitted() == told(
                old(self).emitted(),
                Emission::Reference { offset, len },
                outcome,
            ),
            outcome matches Err(error) ==> final(self).refusal() == Some(error),
            old(self).unfailing() ==> outcome is Ok && final(self).unfailing(),
    ;
}

/// A sink that keeps nothing.
pub struct DiscardingSink {
    taken: Ghost<Seq<Emission>>,
}

impl DiscardingSink {
    pub fn new() -> (sink: Self)
        ensures
            sink.emitted() == Seq::<Emission>::empty(),
            sink.unfailing(),
    {
        DiscardingSink { taken: Ghost(Seq::empty()) }
    }
}

impl DeltaSink for DiscardingSink {
    closed spec fn emitted(&self) -> Seq<Emission> {
        self.taken@
    }

    open spec fn unfailing(&self) -> bool {
        true
    }

    fn literal(&mut self, bytes: &[u8]) -> (outcome: Result<(), StrategyError>) {
        self.taken = Ghost(self.taken@.push(Emission::Literal(bytes@)));
        Ok(())
    }

    fn reference(&mut self, offset: u64, len: usize) -> (outcome: Result<(), StrategyError>) {
        self.taken = Ghost(self.taken@.push(Emission::Reference { offset, len }));
        Ok(())
    }
}

/// What was decided about a source chunk.
#[derive(Debug, Clone, Copy, PartialEq, Eq)]
pub enum Decision {
    /// The chunk is new.
    Literal,
    /// The chunk is an equal span of the destination.
    Reference { offset: u64, len: usize },
}

/// Decides about one source chunk.
pub fn decide(signatures: &SignatureTable, bytes: &[u8]) -> (decision: Decision)
    ensures
        match decision {
            Decision::Literal => emission(signatures.spans(), bytes@) == Emission::Literal(bytes@),
            Decision::Reference { offset, len } => emission(signatures.spans(), bytes@) == (
            Emission::Reference { offset, len }),
        },
{
    let strong = strong_checksum(bytes);
    match find_match(signatures, strong, bytes.len()) {
        Some(chunk) => Decision::Reference { offset: chunk.offset, len: chunk.len },
        None => Decision::Literal,
    }
}

impl DeltaStats {
    /// Counts one more chunk of `len` bytes.
    pub fn record(&mut self, decision: Decision, len: usize)
        requires
            old(self).reference_chunks + old(self).literal_chunks < usize::MAX,
            old(self).literal_bytes + len <= u64::MAX,
        ensures
            *final(self) == match decision {
                Decision::Literal => DeltaStats {
                    reference_chunks: old(self).reference_chunks,
                    literal_chunks: (old(self).literal_chunks + 1) as usize,
                    literal_bytes: (old(self).literal_bytes + len) as u64,
                },
                Decision::Reference { .. } => DeltaStats {
                    reference_chunks: (old(self).reference_chunks + 1) as usize,
                    literal_chunks: old(self).literal_chunks,
                    literal_bytes: old(self).literal_bytes,
                },
            },
    {
        match decision {
            Decision::Literal => {
                self.literal_chunks = self.literal_chunks + 1;
                self.literal_bytes = self.literal_bytes + len as u64;
            },
            Decision::Reference { .. } => {
                self.reference_chunks = self.reference_chunks + 1;
            },
        }
    }
}

/// Decides about one source chunk, tells the sink and counts it. If the sink
/// refuses, nothing is counted and its error is returned.
pub fn emit_chunk<S: DeltaSink>(
    signatures: &SignatureTable,
    bytes: &[u8],
    sink: &mut S,
    stats: &mut DeltaStats,
) -> (outcome: Result<(), StrategyError>)
    requires
        old(stats).reference_chunks + old(stats).literal_chunks < usize::MAX,
        old(stats).literal_bytes + bytes@.len() <= u64::MAX,
    ensures
        ({
            let emitted = emission(signatures.spans(), bytes@);
            &&& final(sink).emitted() == told(old(sink).emitted(), emitted, outcome)
            &&& outcome matches Err(error) ==> final(sink).refusal() == Some(error)
            &&& old(sink).unfailing() ==> outcome is Ok && final(sink).unfailing()
            &&& *final(stats) == if outcome is Err {
                *old(stats)
            } else {
                match emitted {
                    Emission::Literal(_) => DeltaStats {
                        reference_chunks: old(stats).reference_chunks,
                        literal_chunks: (old(stats).literal_chunks + 1) as usize,
                        literal_bytes: (old(stats).literal_bytes + bytes@.len()) as u64,
                    },
                    Emission::Reference { .. } => DeltaStats {
                        reference_chunks: (old(stats).reference_chunks + 1) as usize,
                        literal_chunks: old(stats).literal_chunks,
                        literal_bytes: old(stats).literal_bytes,
                    },
                }
            }
        }),
{
    let decision = decide(signatures, bytes);
    let outcome = match decision {
        Decision::Literal => sink.literal(bytes),
        Decision::Reference { offset, len } => sink.reference(offset, len),
    };
    if outcome.is_ok() {
        stats.record(decision, bytes.len());
    }
    outcome
}

/// The signatures of a destination.
pub fn signatures_fastcdc(data: &[u8], config: FastCdcConfig) -> (table: Result<
    SignatureTable,
    StrategyError,
>)
    ensures
        table matches Ok(found) && found.spans() == spans_in(
            data@,
            crate::chunker::fastcdc::chunks_in(data@, config),
        ),
{
    let chunks = match read_chunks(data, config) {
        Ok(chunks) => chunks,
        Err(error) => {
            return Err(StrategyError::Chunker(error));
        },
    };
    let ghost cuts = crate::chunker::fastcdc::cuts_of(chunks@);
    let mut table = SignatureTable::empty();
    let mut index: usize = 0;
    assert(table.spans() =~= spans_in(data@, cuts).take(0));
    while index < chunks.len()
        invariant
            index <= chunks@.len(),
            cuts == crate::chunker::fastcdc::cuts_of(chunks@),
            crate::chunker::fastcdc::tiles(
                cuts,
                data@.len() as int,
                config.spec_max_size() as int,
            ),
            table.spans() == spans_in(data@, cuts).take(index as int),
        decreases chunks.len() - index,
    {
        let bytes = chunk_bytes(data, chunks[index], Ghost(cuts), Ghost(index as int), Ghost(
            config.spec_max_size() as int,
        ));
        table = table.with_chunk(chunks[index].offset, bytes);
        assert(table.spans() =~= spans_in(data@, cuts).take(index + 1));
        index = index + 1;
    }
    assert(spans_in(data@, cuts).take(index as int) =~= spans_in(data@, cuts));
    Ok(table)
}

/// The bytes of chunk number `index` of an input.
fn chunk_bytes<'a>(
    data: &'a [u8],
    chunk: Chunk,
    Ghost(cuts): Ghost<Seq<(u64, u64, usize)>>,
    Ghost(index): Ghost<int>,
    Ghost(max_size): Ghost<int>,
) -> (bytes: &'a [u8])
    requires
        crate::chunker::fastcdc::tiles(cuts, data@.len() as int, max_size),
        0 <= index < cuts.len(),
        cuts[index] == crate::chunker::fastcdc::cut_of(chunk),
    ensures
        bytes@ == crate::chunker::fastcdc::bytes_of(data@, cuts[index]),
        bytes@.len() == cuts[index].2,
{
    assert(cuts[index].1 + cuts[index].2 <= data.len());
    let start: usize = chunk.offset as usize;
    slice_subrange(data, start, start + chunk.length)
}

proof fn lemma_counts_one_more(stats: DeltaStats, emitted: Seq<Emission>, next: Emission)
    requires
        counts(stats, emitted),
    ensures
        reference_count(emitted.push(next)) == stats.reference_chunks + if next is Reference {
            1int
        } else {
            0
        },
        literal_len(emitted.push(next)) == stats.literal_bytes + match next {
            Emission::Literal(bytes) => bytes.len() as int,
            Emission::Reference { .. } => 0,
        },
{
    assert(emitted.push(next).drop_last() =~= emitted);
}

/// Cuts a source into chunks and tells the sink what becomes of each.
///
/// Everything is told in order, and the counts are those of what was told. Only
/// the sink can fail: its first error ends the telling and is returned.
pub fn emit_delta_fastcdc_into<S: DeltaSink>(
    source: &[u8],
    signatures: &SignatureTable,
    config: FastCdcConfig,
    sink: &mut S,
) -> (stats: Result<DeltaStats, StrategyError>)
    ensures
        ({
            let expected = emissions(
                signatures.spans(),
                source@,
                crate::chunker::fastcdc::chunks_in(source@, config),
            );
            &&& match stats {
                Ok(found) => final(sink).emitted() == old(sink).emitted() + expected && counts(
                    found,
                    expected,
                ),
                Err(error) => final(sink).refusal() == Some(error) && exists|k: int|
                    0 <= k < expected.len() && final(sink).emitted() == old(sink).emitted()
                        + #[trigger] expected.take(k),
            }
            &&& source@.len() == 0 || old(sink).unfailing() ==> stats is Ok
        }),
{
    let chunks = match read_chunks(source, config) {
        Ok(chunks) => chunks,
        Err(error) => {
            return Err(StrategyError::Chunker(error));
        },
    };
    let ghost cuts = crate::chunker::fastcdc::cuts_of(chunks@);
    let ghost expected = emissions(signatures.spans(), source@, cuts);
    let ghost max_size = config.spec_max_size() as int;
    let mut stats = DeltaStats::default();
    let mut index: usize = 0;
    let ghost mut end: int = 0;
    assert(sink.emitted() + expected.take(0) =~= sink.emitted());
    assert(expected.take(0) =~= Seq::<Emission>::empty());
    while index < chunks.len()
        invariant
            index <= chunks@.len(),
            cuts == crate::chunker::fastcdc::cuts_of(chunks@),
            cuts == crate::chunker::fastcdc::chunks_in(source@, config),
            crate::chunker::fastcdc::tiles(cuts, source@.len() as int, max_size),
            expected == emissions(signatures.spans(), source@, cuts),
            index < cuts.len() ==> cuts[index as int].1 == end,
            stats.literal_bytes <= end <= source@.len(),
            counts(stats, expected.take(index as int)),
            sink.emitted() == old(sink).emitted() + expected.take(index as int),
            old(sink).unfailing() ==> sink.unfailing(),
        decreases chunks.len() - index,
    {
        let ghost before = stats;
        let bytes = chunk_bytes(
            source,
            chunks[index],
            Ghost(cuts),
            Ghost(index as int),
            Ghost(max_size),
        );
        assert(source@.len() == source.len());
        assert(chunks@.len() == chunks.len());
        assert(cuts[index as int].1 + cuts[index as int].2 <= source@.len());
        assert(expected[index as int] == emission(signatures.spans(), bytes@));
        if let Err(error) = emit_chunk(signatures, bytes, sink, &mut stats) {
            return Err(error);
        }
        proof {
            let told = expected.take(index as int);
            lemma_counts_one_more(before, told, expected[index as int]);
            assert(told.push(expected[index as int]) =~= expected.take(index + 1));
            assert(sink.emitted() =~= old(sink).emitted() + expected.take(index + 1));
            end = end + bytes@.len();
            if index + 1 < cuts.len() {
                assert(cuts[index + 1].1 == cuts[index as int].1 + cuts[index as int].2);
            }
        }
        index = index + 1;
    }
    assert(expected.take(index as int) =~= expected);
    Ok(stats)
}

/// Counts what becomes of the chunks of a source.
pub fn emit_delta_fastcdc(
    source: &[u8],
    signatures: &SignatureTable,
    config: FastCdcConfig,
) -> (stats: Result<DeltaStats, StrategyError>)
    ensures
        stats matches Ok(found) && counts(
            found,
            emissions(
                signatures.spans(),
                source@,
                crate::chunker::fastcdc::chunks_in(source@, config),
            ),
        ),
{
    let mut sink = DiscardingSink::new();
    emit_delta_fastcdc_into(source, signatures, config, &mut sink)
}

/// Whether a span lies inside a destination of `destination_len` bytes.
pub open spec fn span_fits(offset: u64, len: usize, destination_len: int) -> bool {
    len == 0 || offset + len <= destination_len
}

/// The bytes of a span that fits.
pub open spec fn span_bytes(offset: u64, len: usize, destination: Seq<u8>) -> Seq<u8> {
    if len == 0 {
        Seq::empty()
    } else {
        destination.subrange(offset as int, offset + len)
    }
}

/// What the emissions rebuild from the destination, or the first span that does
/// not fit.
pub open spec fn rebuilt(emitted: Seq<Emission>, destination: Seq<u8>) -> Result<
    Seq<u8>,
    (u64, usize),
>
    decreases emitted.len(),
{
    if emitted.len() == 0 {
        Ok(Seq::empty())
    } else {
        match rebuilt(emitted.drop_last(), destination) {
            Err(failed) => Err(failed),
            Ok(written) => match emitted.last() {
                Emission::Literal(bytes) => Ok(written + bytes),
                Emission::Reference { offset, len } => if span_fits(
                    offset,
                    len,
                    destination.len() as int,
                ) {
                    Ok(written + span_bytes(offset, len, destination))
                } else {
                    Err((offset, len))
                },
            },
        }
    }
}

/// What there is of a span that does not fit: the destination from its start on, if
/// it starts inside.
pub open spec fn span_part(offset: u64, destination: Seq<u8>) -> Seq<u8> {
    if offset < destination.len() {
        destination.skip(offset as int)
    } else {
        Seq::empty()
    }
}

/// What is written when the emissions are applied one by one: the bytes of each, up to
/// the first span that does not fit, and what there is of that one.
pub open spec fn output(emitted: Seq<Emission>, destination: Seq<u8>) -> Seq<u8>
    decreases emitted.len(),
{
    if emitted.len() == 0 {
        Seq::empty()
    } else if rebuilt(emitted.drop_last(), destination) is Err {
        output(emitted.drop_last(), destination)
    } else {
        output(emitted.drop_last(), destination) + match emitted.last() {
            Emission::Literal(bytes) => bytes,
            Emission::Reference { offset, len } => if span_fits(
                offset,
                len,
                destination.len() as int,
            ) {
                span_bytes(offset, len, destination)
            } else {
                span_part(offset, destination)
            },
        }
    }
}

/// Emissions that can all be applied are written as what they rebuild.
pub proof fn lemma_output_of_a_rebuild(emitted: Seq<Emission>, destination: Seq<u8>)
    ensures
        rebuilt(emitted, destination) matches Ok(bytes) ==> output(emitted, destination) == bytes,
    decreases emitted.len(),
{
    if emitted.len() > 0 {
        lemma_output_of_a_rebuild(emitted.drop_last(), destination);
    }
}

/// A span that does not fit is refused once all that stands before it has been
/// written. Behind that stands what there is of the span, and nothing of what follows.
pub proof fn lemma_output_before_a_refused_span(
    before: Seq<Emission>,
    offset: u64,
    len: usize,
    after: Seq<Emission>,
    destination: Seq<u8>,
)
    requires
        rebuilt(before, destination) is Ok,
        !span_fits(offset, len, destination.len() as int),
    ensures
        ({
            let emitted = before + seq![Emission::Reference { offset, len }] + after;
            &&& rebuilt(emitted, destination) == Err::<Seq<u8>, (u64, usize)>((offset, len))
            &&& output(emitted, destination) == rebuilt(before, destination)->Ok_0 + span_part(
                offset,
                destination,
            )
        }),
{
    let refused = Emission::Reference { offset, len };
    let emitted = before + seq![refused] + after;
    let upto = before.len() as int + 1;
    assert(emitted.take(upto) =~= before.push(refused));
    assert(emitted.take(upto).drop_last() =~= before);
    assert(emitted.take(upto).last() == refused);
    lemma_output_of_a_rebuild(before, destination);
    lemma_rebuilt_fails(emitted, upto, destination);
}

/// A failure stays whatever follows.
proof fn lemma_rebuilt_fails(emitted: Seq<Emission>, upto: int, destination: Seq<u8>)
    requires
        0 <= upto <= emitted.len(),
        rebuilt(emitted.take(upto), destination) is Err,
    ensures
        rebuilt(emitted, destination) == rebuilt(emitted.take(upto), destination),
        output(emitted, destination) == output(emitted.take(upto), destination),
    decreases emitted.len() - upto,
{
    if upto == emitted.len() {
        assert(emitted.take(upto) =~= emitted);
    } else {
        assert(emitted.take(upto + 1).drop_last() =~= emitted.take(upto));
        lemma_rebuilt_fails(emitted, upto + 1, destination);
    }
}

/// The bytes of a span of the destination.
pub fn referenced<'a>(destination: &'a [u8], offset: u64, len: usize) -> (bytes: Result<
    &'a [u8],
    StrategyError,
>)
    ensures
        if span_fits(offset, len, destination@.len() as int) {
            bytes matches Ok(found) && found@ == span_bytes(offset, len, destination@)
        } else {
            bytes == Err::<&'a [u8], StrategyError>(
                StrategyError::InvalidBasisSpan { offset, len },
            )
        },
{
    if len == 0 {
        return Ok(slice_subrange(destination, 0, 0));
    }
    if len > destination.len() || offset > (destination.len() - len) as u64 {
        return Err(StrategyError::InvalidBasisSpan { offset, len });
    }
    let start: usize = offset as usize;
    Ok(slice_subrange(destination, start, start + len))
}

/// Writes a rebuilt source behind what `out` holds: literals as they stand, and
/// references out of the destination. A reference that reaches past the end of the
/// destination is refused. By then everything before it has been written, and as much
/// of it as there is.
pub fn apply_fastcdc_into(
    source: &[u8],
    signatures: &SignatureTable,
    config: FastCdcConfig,
    destination: &[u8],
    out: &mut Vec<u8>,
) -> (applied: Result<DeltaStats, StrategyError>)
    ensures
        ({
            let expected = emissions(
                signatures.spans(),
                source@,
                crate::chunker::fastcdc::chunks_in(source@, config),
            );
            &&& final(out)@ == old(out)@ + output(expected, destination@)
            &&& match rebuilt(expected, destination@) {
                Ok(_) => applied matches Ok(stats) && counts(stats, expected),
                Err((offset, len)) => applied == Err::<DeltaStats, StrategyError>(
                    StrategyError::InvalidBasisSpan { offset, len },
                ),
            }
        }),
{
    let chunks = match read_chunks(source, config) {
        Ok(chunks) => chunks,
        Err(error) => {
            return Err(StrategyError::Chunker(error));
        },
    };
    let ghost cuts = crate::chunker::fastcdc::cuts_of(chunks@);
    let ghost expected = emissions(signatures.spans(), source@, cuts);
    let ghost max_size = config.spec_max_size() as int;
    let mut stats = DeltaStats::default();
    let mut index: usize = 0;
    let ghost mut end: int = 0;
    assert(expected.take(0) =~= Seq::<Emission>::empty());
    assert(out@ =~= old(out)@ + output(expected.take(0), destination@));
    while index < chunks.len()
        invariant
            index <= chunks@.len(),
            cuts == crate::chunker::fastcdc::cuts_of(chunks@),
            cuts == crate::chunker::fastcdc::chunks_in(source@, config),
            crate::chunker::fastcdc::tiles(cuts, source@.len() as int, max_size),
            expected == emissions(signatures.spans(), source@, cuts),
            index < cuts.len() ==> cuts[index as int].1 == end,
            stats.literal_bytes <= end <= source@.len(),
            counts(stats, expected.take(index as int)),
            rebuilt(expected.take(index as int), destination@) is Ok,
            out@ == old(out)@ + output(expected.take(index as int), destination@),
        decreases chunks.len() - index,
    {
        let ghost (before, earlier) = (stats, output(expected.take(index as int), destination@));
        let ghost told = expected.take(index as int);
        let bytes = chunk_bytes(
            source,
            chunks[index],
            Ghost(cuts),
            Ghost(index as int),
            Ghost(max_size),
        );
        assert(source@.len() == source.len());
        assert(chunks@.len() == chunks.len());
        assert(cuts[index as int].1 + cuts[index as int].2 <= source@.len());
        assert(expected[index as int] == emission(signatures.spans(), bytes@));
        assert(expected.take(index + 1).drop_last() =~= told);
        assert(expected.take(index + 1).last() == expected[index as int]);
        let decision = decide(signatures, bytes);
        match decision {
            Decision::Literal => {
                out.extend_from_slice(bytes);
                assert(out@ =~= old(out)@ + (earlier + bytes@));
            },
            Decision::Reference { offset, len } => {
                match referenced(destination, offset, len) {
                    Ok(span) => {
                        out.extend_from_slice(span);
                        assert(out@ =~= old(out)@ + (earlier + span@));
                    },
                    Err(error) => {
                        if offset < destination.len() as u64 {
                            out.extend_from_slice(
                                slice_subrange(destination, offset as usize, destination.len()),
                            );
                        }
                        proof {
                            assert(out@ =~= old(out)@ + (earlier + span_part(
                                offset,
                                destination@,
                            )));
                            lemma_rebuilt_fails(expected, index + 1, destination@);
                        }
                        return Err(error);
                    },
                }
            },
        }
        stats.record(decision, bytes.len());
        proof {
            lemma_counts_one_more(before, told, expected[index as int]);
            assert(told.push(expected[index as int]) =~= expected.take(index + 1));
            end = end + bytes@.len();
            if index + 1 < cuts.len() {
                assert(cuts[index + 1].1 == cuts[index as int].1 + cuts[index as int].2);
            }
        }
        index = index + 1;
    }
    assert(expected.take(index as int) =~= expected);
    Ok(stats)
}

/// Rebuilds a source: literals as they stand, and references out of the
/// destination. A reference that reaches past its end is refused.
pub fn apply_fastcdc(
    source: &[u8],
    signatures: &SignatureTable,
    config: FastCdcConfig,
    destination: &[u8],
) -> (applied: Result<(Vec<u8>, DeltaStats), StrategyError>)
    ensures
        ({
            let expected = emissions(
                signatures.spans(),
                source@,
                crate::chunker::fastcdc::chunks_in(source@, config),
            );
            match rebuilt(expected, destination@) {
                Ok(bytes) => applied matches Ok((written, stats)) && written@ == bytes && counts(
                    stats,
                    expected,
                ),
                Err((offset, len)) => applied == Err::<(Vec<u8>, DeltaStats), StrategyError>(
                    StrategyError::InvalidBasisSpan { offset, len },
                ),
            }
        }),
{
    let mut written: Vec<u8> = Vec::new();
    match apply_fastcdc_into(source, signatures, config, destination, &mut written) {
        Ok(stats) => {
            proof {
                let expected = emissions(
                    signatures.spans(),
                    source@,
                    crate::chunker::fastcdc::chunks_in(source@, config),
                );
                lemma_output_of_a_rebuild(expected, destination@);
                assert(written@ =~= output(expected, destination@));
            }
            Ok((written, stats))
        },
        Err(error) => Err(error),
    }
}

/// Whether no chunk of the destination shares its hash and length with a source
/// chunk that holds other bytes.
pub open spec fn collision_free(
    destination: Seq<u8>,
    destination_cuts: Seq<(u64, u64, usize)>,
    source: Seq<u8>,
    source_cuts: Seq<(u64, u64, usize)>,
) -> bool {
    forall|i: int, k: int|
        #![trigger destination_cuts[i], source_cuts[k]]
        0 <= i < destination_cuts.len() && 0 <= k < source_cuts.len() ==> {
            let kept = crate::chunker::fastcdc::bytes_of(destination, destination_cuts[i]);
            let wanted = crate::chunker::fastcdc::bytes_of(source, source_cuts[k]);
            crate::digest::blake3_of(kept) == crate::digest::blake3_of(wanted) && kept.len()
                == wanted.len() ==> kept == wanted
        }
}

proof fn lemma_rebuilt_upto(
    destination: Seq<u8>,
    destination_cuts: Seq<(u64, u64, usize)>,
    source: Seq<u8>,
    source_cuts: Seq<(u64, u64, usize)>,
    max_size: int,
    upto: int,
)
    requires
        crate::chunker::fastcdc::tiles(destination_cuts, destination.len() as int, max_size),
        crate::chunker::fastcdc::tiles(source_cuts, source.len() as int, max_size),
        collision_free(destination, destination_cuts, source, source_cuts),
        0 <= upto <= source_cuts.len(),
    ensures
        ({
            let spans = spans_in(destination, destination_cuts);
            let expected = emissions(spans, source, source_cuts);
            let end = if upto == 0 {
                0
            } else {
                source_cuts[upto - 1].1 + source_cuts[upto - 1].2
            };
            rebuilt(expected.take(upto), destination) == Ok::<Seq<u8>, (u64, usize)>(
                source.take(end),
            )
        }),
    decreases upto,
{
    let spans = spans_in(destination, destination_cuts);
    let expected = emissions(spans, source, source_cuts);
    if upto == 0 {
        assert(expected.take(0) =~= Seq::<Emission>::empty());
        assert(source.take(0) =~= Seq::<u8>::empty());
    } else {
        lemma_rebuilt_upto(
            destination,
            destination_cuts,
            source,
            source_cuts,
            max_size,
            upto - 1,
        );
        let cut = source_cuts[upto - 1];
        let wanted = crate::chunker::fastcdc::bytes_of(source, cut);
        let strong = crate::digest::blake3_of(wanted);
        assert(expected.take(upto).drop_last() =~= expected.take(upto - 1));
        assert(expected.take(upto).last() == emission(spans, wanted));
        if upto > 1 {
            assert(source_cuts[upto - 1].1 == source_cuts[upto - 2].1 + source_cuts[upto - 2].2);
        }
        assert(source.take(cut.1 as int) + wanted =~= source.take(cut.1 + cut.2));
        lemma_first_span(spans, strong, wanted.len() as int, 0);
        if let Some(i) = first_span(spans, strong, wanted.len() as int, 0) {
            let kept = crate::chunker::fastcdc::bytes_of(destination, destination_cuts[i]);
            assert(spans[i] == span_at(destination, destination_cuts[i]));
            assert(kept.len() == wanted.len());
            assert(kept == wanted);
            assert(span_bytes(spans[i].offset, spans[i].len, destination) =~= wanted);
        }
    }
}

/// Applying the decisions about a source to the destination they were made for
/// gives the source, as long as no two different chunks share a hash.
pub proof fn lemma_emissions_rebuild_the_source(
    destination: Seq<u8>,
    destination_cuts: Seq<(u64, u64, usize)>,
    source: Seq<u8>,
    source_cuts: Seq<(u64, u64, usize)>,
    max_size: int,
)
    requires
        crate::chunker::fastcdc::tiles(destination_cuts, destination.len() as int, max_size),
        crate::chunker::fastcdc::tiles(source_cuts, source.len() as int, max_size),
        collision_free(destination, destination_cuts, source, source_cuts),
    ensures
        rebuilt(
            emissions(spans_in(destination, destination_cuts), source, source_cuts),
            destination,
        ) == Ok::<Seq<u8>, (u64, usize)>(source),
{
    let n = source_cuts.len() as int;
    let expected = emissions(spans_in(destination, destination_cuts), source, source_cuts);
    lemma_rebuilt_upto(destination, destination_cuts, source, source_cuts, max_size, n);
    assert(expected.take(n) =~= expected);
    if n > 0 {
        assert(source_cuts.last() == source_cuts[n - 1]);
        assert(source.take(source.len() as int) =~= source);
    } else {
        assert(source.take(0) =~= source);
    }
}

proof fn lemma_references_only(emitted: Seq<Emission>)
    requires
        forall|k: int| 0 <= k < emitted.len() ==> (#[trigger] emitted[k]) is Reference,
    ensures
        reference_count(emitted) == emitted.len(),
        literal_len(emitted) == 0,
    decreases emitted.len(),
{
    if emitted.len() > 0 {
        assert(emitted[emitted.len() - 1] is Reference);
        lemma_references_only(emitted.drop_last());
    }
}

/// A source identical to the destination, cut the same way, becomes references
/// alone: nothing is counted as literal.
pub proof fn lemma_identical_source_is_referenced(
    data: Seq<u8>,
    cuts: Seq<(u64, u64, usize)>,
    max_size: int,
    stats: DeltaStats,
)
    requires
        crate::chunker::fastcdc::tiles(cuts, data.len() as int, max_size),
        counts(stats, emissions(spans_in(data, cuts), data, cuts)),
    ensures
        forall|k: int|
            0 <= k < cuts.len() ==> (#[trigger] emissions(
                spans_in(data, cuts),
                data,
                cuts,
            )[k]) is Reference,
        stats.literal_chunks == 0,
        stats.literal_bytes == 0,
        stats.reference_chunks == cuts.len(),
{
    let spans = spans_in(data, cuts);
    let emitted = emissions(spans, data, cuts);
    assert forall|k: int| 0 <= k < cuts.len() implies (#[trigger] emitted[k]) is Reference by {
        let bytes = crate::chunker::fastcdc::bytes_of(data, cuts[k]);
        lemma_first_span(spans, crate::digest::blake3_of(bytes), bytes.len() as int, 0);
        assert(cuts[k].1 + cuts[k].2 <= data.len());
        assert(spans[k] == span_at(data, cuts[k]));
        assert(same_span(spans[k], crate::digest::blake3_of(bytes), bytes.len() as int));
    }
    lemma_references_only(emitted);
}

/// Whether `span` has the length and the hash of `bytes`.
pub open spec fn span_has(span: Span, bytes: Seq<u8>) -> bool {
    span.len == bytes.len() && span.strong == crate::digest::blake3_of(bytes)
}

proof fn lemma_first_span_is_first(spans: Seq<Span>, strong: Seq<u8>, len: int, from: int)
    requires
        0 <= from,
    ensures
        first_span(spans, strong, len, from) matches Some(k) ==> from <= k < spans.len()
            && same_span(spans[k], strong, len) && forall|c: int|
            from <= c < k ==> !same_span(#[trigger] spans[c], strong, len),
    decreases spans.len() - from,
{
    if from < spans.len() && !same_span(spans[from], strong, len) {
        lemma_first_span_is_first(spans, strong, len, from + 1);
    }
}

/// There is one decision for each chunk of the source, in their order. A chunk whose
/// length and hash some span of the destination has becomes a reference to the first such
/// span. Every other chunk becomes a literal of its bytes.
pub proof fn lemma_known_chunks_are_referenced(
    spans: Seq<Span>,
    source: Seq<u8>,
    cuts: Seq<(u64, u64, usize)>,
    k: int,
)
    requires
        0 <= k < cuts.len(),
    ensures
        emissions(spans, source, cuts).len() == cuts.len(),
        ({
            let bytes = source.subrange(cuts[k].1 as int, cuts[k].1 + cuts[k].2);
            match emissions(spans, source, cuts)[k] {
                Emission::Literal(written) => {
                    &&& written == bytes
                    &&& forall|c: int| 0 <= c < spans.len() ==> !span_has(#[trigger] spans[c], bytes)
                },
                Emission::Reference { offset, len } => exists|c: int|
                    #![trigger spans[c]]
                    0 <= c < spans.len() && span_has(spans[c], bytes) && offset == spans[c].offset
                        && len == bytes.len() && forall|d: int|
                        0 <= d < c ==> !span_has(#[trigger] spans[d], bytes),
            }
        }),
{
    let bytes = source.subrange(cuts[k].1 as int, cuts[k].1 + cuts[k].2);
    let strong = crate::digest::blake3_of(bytes);
    lemma_first_span(spans, strong, bytes.len() as int, 0);
    lemma_first_span_is_first(spans, strong, bytes.len() as int, 0);
    assert forall|c: int| 0 <= c < spans.len() implies span_has(#[trigger] spans[c], bytes)
        == same_span(spans[c], strong, bytes.len() as int) by {}
    if let Some(c) = first_span(spans, strong, bytes.len() as int, 0) {
        assert(span_has(spans[c], bytes));
    }
}

/// There is one span for each chunk of the destination, in their order: where the chunk
/// starts, how long it is, and the hash of its bytes.
pub proof fn lemma_spans_describe_the_chunks(
    data: Seq<u8>,
    cuts: Seq<(u64, u64, usize)>,
    k: int,
)
    requires
        0 <= k < cuts.len(),
    ensures
        spans_in(data, cuts).len() == cuts.len(),
        spans_in(data, cuts)[k].offset == cuts[k].1,
        spans_in(data, cuts)[k].len == cuts[k].2,
        spans_in(data, cuts)[k].strong == crate::digest::blake3_of(
            data.subrange(cuts[k].1 as int, cuts[k].1 + cuts[k].2),
        ),
{
}

/// What emissions rebuild, when another list of them follows, comes first in what all of
/// them rebuild. A span that does not fit among them spoils the whole.
pub proof fn lemma_rebuilds_follow_one_another(
    left: Seq<Emission>,
    right: Seq<Emission>,
    destination: Seq<u8>,
)
    ensures
        rebuilt(left + right, destination) == match rebuilt(left, destination) {
            Err(failed) => Err(failed),
            Ok(first) => match rebuilt(right, destination) {
                Err(failed) => Err(failed),
                Ok(second) => Ok(first + second),
            },
        },
    decreases right.len(),
{
    if right.len() == 0 {
        assert(left + right =~= left);
        if let Ok(first) = rebuilt(left, destination) {
            assert(first + Seq::<u8>::empty() =~= first);
        }
    } else {
        assert((left + right).drop_last() =~= left + right.drop_last());
        assert((left + right).last() == right.last());
        lemma_rebuilds_follow_one_another(left, right.drop_last(), destination);
        if let (Ok(first), Ok(second)) = (
            rebuilt(left, destination),
            rebuilt(right.drop_last(), destination),
        ) {
            match right.last() {
                Emission::Literal(bytes) => {
                    assert(first + second + bytes =~= first + (second + bytes));
                },
                Emission::Reference { offset, len } => {
                    let bytes = span_bytes(offset, len, destination);
                    assert(first + second + bytes =~= first + (second + bytes));
                },
            }
        }
    }
}

/// One literal rebuilds its bytes, and one reference the bytes of the destination that it
/// names, unless they reach past its end.
pub proof fn lemma_one_emission_rebuilds_its_bytes(emission: Emission, destination: Seq<u8>)
    ensures
        rebuilt(seq![emission], destination) == match emission {
            Emission::Literal(bytes) => Ok::<Seq<u8>, (u64, usize)>(bytes),
            Emission::Reference { offset, len } => if len == 0 {
                Ok(Seq::empty())
            } else if offset + len <= destination.len() {
                Ok(destination.subrange(offset as int, offset + len))
            } else {
                Err((offset, len))
            },
        },
        rebuilt(Seq::empty(), destination) == Ok::<Seq<u8>, (u64, usize)>(Seq::empty()),
{
    let one = seq![emission];
    assert(one.drop_last() =~= Seq::<Emission>::empty());
    assert(rebuilt(one.drop_last(), destination) == Ok::<Seq<u8>, (u64, usize)>(Seq::empty()));
    match emission {
        Emission::Literal(bytes) => {
            assert(Seq::<u8>::empty() + bytes =~= bytes);
        },
        Emission::Reference { offset, len } => {
            let bytes = span_bytes(offset, len, destination);
            assert(Seq::<u8>::empty() + bytes =~= bytes);
        },
    }
}

/// The counts are those of the references, of the literals and of the bytes of the
/// literals: one more emission raises the one that it belongs to.
pub proof fn lemma_counts_grow_with_the_emissions(emitted: Seq<Emission>, next: Emission)
    ensures
        reference_count(Seq::empty()) == 0,
        literal_len(Seq::empty()) == 0,
        0 <= reference_count(emitted) <= emitted.len(),
        match next {
            Emission::Literal(bytes) => reference_count(emitted.push(next)) == reference_count(
                emitted,
            ) && literal_len(emitted.push(next)) == literal_len(emitted) + bytes.len(),
            Emission::Reference { .. } => reference_count(emitted.push(next)) == reference_count(
                emitted,
            ) + 1 && literal_len(emitted.push(next)) == literal_len(emitted),
        },
    decreases emitted.len(),
{
    assert(emitted.push(next).drop_last() =~= emitted);
    if emitted.len() > 0 {
        lemma_counts_grow_with_the_emissions(emitted.drop_last(), emitted.last());
        assert(emitted.drop_last().push(emitted.last()) =~= emitted);
    }
}

proof fn lemma_reference_count_is_of_a_filter(emitted: Seq<Emission>)
    ensures
        reference_count(emitted) == emitted.filter(
            |emission: Emission| emission is Reference,
        ).len(),
        emitted.len() == emitted.filter(|emission: Emission| emission is Reference).len()
            + emitted.filter(|emission: Emission| emission is Literal).len(),
    decreases emitted.len(),
{
    reveal(Seq::filter);
    if emitted.len() > 0 {
        lemma_reference_count_is_of_a_filter(emitted.drop_last());
    }
}

/// The counts of a delta are the number of references, the number of literals, and the
/// number of bytes that the literals have.
pub proof fn lemma_counts_are_of_each_kind(stats: DeltaStats, emitted: Seq<Emission>)
    requires
        counts(stats, emitted),
    ensures
        stats.reference_chunks == emitted.filter(
            |emission: Emission| emission is Reference,
        ).len(),
        stats.literal_chunks == emitted.filter(|emission: Emission| emission is Literal).len(),
        stats.literal_bytes == emitted.map_values(
            |emission: Emission|
                match emission {
                    Emission::Literal(bytes) => bytes.len() as int,
                    Emission::Reference { .. } => 0,
                },
        ).fold_left(0int, |sum: int, len: int| sum + len),
{
    lemma_reference_count_is_of_a_filter(emitted);
    lemma_literal_len_is_a_sum(emitted);
}

proof fn lemma_literal_len_is_a_sum(emitted: Seq<Emission>)
    ensures
        literal_len(emitted) == emitted.map_values(
            |emission: Emission|
                match emission {
                    Emission::Literal(bytes) => bytes.len() as int,
                    Emission::Reference { .. } => 0,
                },
        ).fold_left(0int, |sum: int, len: int| sum + len),
    decreases emitted.len(),
{
    let len_of = |emission: Emission|
        match emission {
            Emission::Literal(bytes) => bytes.len() as int,
            Emission::Reference { .. } => 0,
        };
    let lens = emitted.map_values(len_of);
    let sum = |sum: int, len: int| sum + len;
    reveal(Seq::fold_left);
    if emitted.len() > 0 {
        lemma_literal_len_is_a_sum(emitted.drop_last());
        assert(lens.drop_last() =~= emitted.drop_last().map_values(len_of));
        assert(lens.last() == len_of(emitted.last()));
    }
}

} // verus!
