use oni::chunker::fastcdc::{chunk_read, chunk_slice, Chunk, FastCdcConfig};
use oni::chunker::fastcdc::{
    AVERAGE_MAX, AVERAGE_MIN, MAXIMUM_MAX, MAXIMUM_MIN, MINIMUM_MAX, MINIMUM_MIN,
};
use oni::error::{ChunkerError, StrategyError};
use oni::strategy::cdc::{
    apply_fastcdc, apply_fastcdc_into, decide, emit_chunk, emit_delta_fastcdc, emit_delta_fastcdc_into, find_match,
    referenced, signatures_fastcdc, Decision, DeltaSink, DeltaStats, DiscardingSink,
    SignatureTable,
};

fn collect_slice(data: &[u8], config: FastCdcConfig) -> Vec<Chunk> {
    let mut chunks = Vec::new();
    chunk_slice(data, config, |chunk, _| {
        chunks.push(chunk);
        Ok::<_, ChunkerError>(())
    })
    .unwrap();
    chunks
}

fn collect_reader(data: &[u8], config: FastCdcConfig) -> Vec<Chunk> {
    let mut chunks = Vec::new();
    chunk_read(data, config, |chunk, _| {
        chunks.push(chunk);
        Ok::<_, ChunkerError>(())
    })
    .unwrap();
    chunks
}

#[test]
fn rejects_invalid_config_ordering() {
    let error = FastCdcConfig::new(16 * 1024, 8 * 1024, 64 * 1024).unwrap_err();

    match error {
        ChunkerError::InvalidOrdering {
            min_size,
            avg_size,
            max_size,
        } => {
            assert_eq!(min_size, 16 * 1024);
            assert_eq!(avg_size, 8 * 1024);
            assert_eq!(max_size, 64 * 1024);
        }
        other => panic!("expected invalid-ordering error, got {other:?}"),
    }
}

#[test]
fn rejects_sizes_outside_the_bounds() {
    assert_eq!(
        FastCdcConfig::new(63, 1024, 4096).unwrap_err(),
        ChunkerError::InvalidBound {
            field: "min-size",
            value: 63,
            min: 64,
            max: 1_048_576,
        }
    );
    assert_eq!(
        FastCdcConfig::new(64, 255, 4096).unwrap_err(),
        ChunkerError::InvalidBound {
            field: "avg-size",
            value: 255,
            min: 256,
            max: 4_194_304,
        }
    );
    assert_eq!(
        FastCdcConfig::new(64, 256, 16_777_217).unwrap_err(),
        ChunkerError::InvalidBound {
            field: "max-size",
            value: 16_777_217,
            min: 1024,
            max: 16_777_216,
        }
    );
    let config = FastCdcConfig::new(64, 256, 1024).unwrap();
    assert_eq!(
        (config.min_size(), config.avg_size(), config.max_size()),
        (64, 256, 1024)
    );
}

#[test]
fn bounds_are_those_of_the_chunker() {
    assert_eq!(MINIMUM_MIN, fastcdc::v2020::MINIMUM_MIN);
    assert_eq!(MINIMUM_MAX, fastcdc::v2020::MINIMUM_MAX);
    assert_eq!(AVERAGE_MIN, fastcdc::v2020::AVERAGE_MIN);
    assert_eq!(AVERAGE_MAX, fastcdc::v2020::AVERAGE_MAX);
    assert_eq!(MAXIMUM_MIN, fastcdc::v2020::MAXIMUM_MIN);
    assert_eq!(MAXIMUM_MAX, fastcdc::v2020::MAXIMUM_MAX);
}

#[test]
fn chunks_cover_the_input_without_gaps() {
    let data = vec![b'a'; 256 * 1024];
    let chunks = collect_slice(&data, FastCdcConfig::default());

    assert!(!chunks.is_empty());
    assert_eq!(chunks.first().unwrap().offset, 0);

    let mut expected_offset = 0_u64;
    for chunk in &chunks {
        assert_eq!(chunk.offset, expected_offset);
        expected_offset += chunk.length as u64;
    }

    assert_eq!(expected_offset, data.len() as u64);
}

#[test]
fn streaming_and_in_memory_chunkers_agree() {
    let data = (0..200_000)
        .map(|index| (index % 251) as u8)
        .collect::<Vec<_>>();
    let config = FastCdcConfig::default();

    let from_slice = collect_slice(&data, config);
    let from_reader = collect_reader(&data, config);

    assert_eq!(from_reader, from_slice);
}

#[test]
fn callback_receives_chunk_bytes_in_order() {
    let data = (0..80_000)
        .map(|index| (index % 241) as u8)
        .collect::<Vec<_>>();
    let config = FastCdcConfig::default();
    let mut rebuilt = Vec::new();

    chunk_slice(&data, config, |chunk, bytes| {
        assert_eq!(bytes.len(), chunk.length);
        rebuilt.extend_from_slice(bytes);
        Ok::<_, ChunkerError>(())
    })
    .unwrap();

    assert_eq!(rebuilt, data);
}

#[test]
fn empty_inputs_produce_no_chunks() {
    let chunks = collect_slice(&[], FastCdcConfig::default());

    assert!(chunks.is_empty());
}

#[test]
fn the_first_refusal_stops_the_chunker() {
    let data = patterned_bytes(256 * 1024);
    let mut seen = 0;
    let outcome = chunk_read(&data, FastCdcConfig::default(), |_, _| {
        seen += 1;
        if seen == 2 {
            Err(ChunkerError::FastCdcIo { operation: "stop" })
        } else {
            Ok(())
        }
    });
    assert_eq!(
        outcome,
        Err(ChunkerError::FastCdcIo { operation: "stop" })
    );
    assert_eq!(seen, 2);
}

#[derive(Debug, Clone, PartialEq, Eq)]
enum RecordedChunk {
    Literal(Vec<u8>),
    Reference { offset: u64, len: usize },
}

#[derive(Debug, Default)]
struct RecordingSink {
    chunks: Vec<RecordedChunk>,
}

impl DeltaSink for RecordingSink {
    fn literal(&mut self, bytes: &[u8]) -> Result<(), StrategyError> {
        if bytes.is_empty() {
            return Ok(());
        }

        match self.chunks.last_mut() {
            Some(RecordedChunk::Literal(existing)) => existing.extend_from_slice(bytes),
            _ => self.chunks.push(RecordedChunk::Literal(bytes.to_vec())),
        }

        Ok(())
    }

    fn reference(&mut self, offset: u64, len: usize) -> Result<(), StrategyError> {
        self.chunks.push(RecordedChunk::Reference { offset, len });
        Ok(())
    }
}

fn patterned_bytes(len: usize) -> Vec<u8> {
    (0..len)
        .map(|index| ((index * 31 + index / 97) % 251) as u8)
        .collect()
}

#[test]
fn identical_files_turn_into_reference_only_streams() {
    let basis_bytes = patterned_bytes(256 * 1024);
    let config = FastCdcConfig::default();

    let signatures = signatures_fastcdc(&basis_bytes, config).unwrap();
    let mut recorded = RecordingSink::default();
    let stats =
        emit_delta_fastcdc_into(&basis_bytes, &signatures, config, &mut recorded).unwrap();

    assert!(stats.reference_chunks > 0);
    assert_eq!(stats.literal_chunks, 0);
    assert!(recorded
        .chunks
        .iter()
        .all(|chunk| matches!(chunk, RecordedChunk::Reference { .. })));

    let (rebuilt, apply_stats) =
        apply_fastcdc(&basis_bytes, &signatures, config, &basis_bytes).unwrap();
    assert_eq!(apply_stats.literal_chunks, 0);
    assert_eq!(rebuilt, basis_bytes);
}

#[test]
fn shifted_inserts_preserve_reference_reuse_and_rebuild_the_source() {
    let basis_bytes = patterned_bytes(320 * 1024);
    let mut source_bytes = basis_bytes[..128 * 1024].to_vec();
    source_bytes.extend(std::iter::repeat_n(b'!', 4 * 1024));
    source_bytes.extend_from_slice(&basis_bytes[128 * 1024..]);
    let config = FastCdcConfig::default();

    let signatures = signatures_fastcdc(&basis_bytes, config).unwrap();
    let mut recorded = RecordingSink::default();
    let stats =
        emit_delta_fastcdc_into(&source_bytes, &signatures, config, &mut recorded).unwrap();

    assert!(recorded
        .chunks
        .iter()
        .any(|chunk| matches!(chunk, RecordedChunk::Reference { .. })));
    assert!(recorded
        .chunks
        .iter()
        .any(|chunk| matches!(chunk, RecordedChunk::Literal(_))));
    assert!(stats.reference_chunks > 0);
    assert!(stats.literal_chunks > 0);

    let (rebuilt, _) = apply_fastcdc(&source_bytes, &signatures, config, &basis_bytes).unwrap();
    assert_eq!(rebuilt, source_bytes);
}

#[test]
fn equal_size_overwrites_still_rebuild_the_source() {
    let basis_bytes = patterned_bytes(192 * 1024);
    let mut source_bytes = basis_bytes.clone();
    source_bytes[64 * 1024..64 * 1024 + 17].copy_from_slice(b"replacement-bytes");
    let config = FastCdcConfig::default();

    let signatures = signatures_fastcdc(&basis_bytes, config).unwrap();
    let stats = emit_delta_fastcdc(&source_bytes, &signatures, config).unwrap();

    assert!(stats.literal_chunks > 0);

    let (rebuilt, _) = apply_fastcdc(&source_bytes, &signatures, config, &basis_bytes).unwrap();
    assert_eq!(rebuilt, source_bytes);
}

#[test]
fn tables_can_be_built_chunk_by_chunk() {
    let data = patterned_bytes(100 * 1024);
    let config = FastCdcConfig::default();
    let mut table = SignatureTable::empty();
    for chunk in collect_slice(&data, config) {
        let start = chunk.offset as usize;
        table = table.with_chunk(chunk.offset, &data[start..start + chunk.length]);
    }
    assert_eq!(Ok(table), signatures_fastcdc(&data, config));
}

#[test]
fn equal_chunks_are_referenced_at_their_first_place() {
    let table = SignatureTable::empty()
        .with_chunk(0, b"twice")
        .with_chunk(5, b"other")
        .with_chunk(10, b"twice");
    assert_eq!(
        decide(&table, b"twice"),
        Decision::Reference { offset: 0, len: 5 }
    );
    assert_eq!(
        decide(&table, b"other"),
        Decision::Reference { offset: 5, len: 5 }
    );
    assert_eq!(decide(&table, b"thrice"), Decision::Literal);
    assert_eq!(table.chunks().len(), 3);
    let strong = oni::digest::strong_checksum(b"other");
    assert_eq!(find_match(&table, strong, 5).unwrap().offset, 5);
    assert!(find_match(&table, strong, 6).is_none());
}

#[test]
fn each_chunk_is_counted() {
    let table = SignatureTable::empty().with_chunk(0, b"known");
    let mut stats = DeltaStats::default();
    let mut sink = DiscardingSink::new();
    emit_chunk(&table, b"known", &mut sink, &mut stats).unwrap();
    emit_chunk(&table, b"brand new", &mut sink, &mut stats).unwrap();
    assert_eq!(
        stats,
        DeltaStats {
            reference_chunks: 1,
            literal_chunks: 1,
            literal_bytes: 9,
        }
    );
}

struct RefusingSink;

impl DeltaSink for RefusingSink {
    fn literal(&mut self, _bytes: &[u8]) -> Result<(), StrategyError> {
        Err(StrategyError::InvalidBlockReference { block_index: 7 })
    }

    fn reference(&mut self, _offset: u64, _len: usize) -> Result<(), StrategyError> {
        Ok(())
    }
}

#[test]
fn a_refusing_sink_stops_the_delta() {
    let table = SignatureTable::empty();
    let outcome = emit_delta_fastcdc_into(
        b"new bytes",
        &table,
        FastCdcConfig::default(),
        &mut RefusingSink,
    );
    assert_eq!(
        outcome,
        Err(StrategyError::InvalidBlockReference { block_index: 7 })
    );
}

#[test]
fn references_past_the_destination_are_refused() {
    let config = FastCdcConfig::default();
    let source = b"the same bytes".to_vec();
    let table = signatures_fastcdc(&source, config).unwrap();
    assert_eq!(
        apply_fastcdc(&source, &table, config, b"too short"),
        Err(StrategyError::InvalidBasisSpan { offset: 0, len: 14 })
    );
    assert_eq!(referenced(b"abcdef", 2, 3).unwrap(), b"cde");
    assert_eq!(referenced(b"abcdef", 100, 0).unwrap(), b"");
}

#[test]
fn applied_bytes_follow_what_is_there() {
    let config = FastCdcConfig::default();
    let source = b"the same bytes".to_vec();
    let table = signatures_fastcdc(&source, config).unwrap();
    let mut out = b"> ".to_vec();
    let stats = apply_fastcdc_into(&source, &table, config, &source, &mut out).unwrap();
    assert_eq!(out, b"> the same bytes");
    assert_eq!(stats.reference_chunks, 1);
    assert_eq!(stats.literal_bytes, 0);
}

#[test]
fn refused_references_leave_what_came_before() {
    let config = FastCdcConfig::default();
    let source = b"the same bytes".to_vec();
    let table = signatures_fastcdc(&source, config).unwrap();
    let refused = Err(StrategyError::InvalidBasisSpan { offset: 0, len: 14 });

    let mut out = b"> ".to_vec();
    let outcome = apply_fastcdc_into(&source, &table, config, b"too short", &mut out);
    assert_eq!(outcome, refused);
    assert_eq!(out, b"> too short");

    let mut out = Vec::new();
    assert_eq!(
        apply_fastcdc_into(&source, &table, config, b"", &mut out),
        refused
    );
    assert!(out.is_empty());
}

#[test]
fn refused_references_stop_after_whole_ones() {
    let config = FastCdcConfig::new(64, 256, 1024).unwrap();
    let source: Vec<u8> = (0..8192_u32)
        .map(|index| (index.wrapping_mul(2_654_435_761) >> 24) as u8)
        .collect();
    let chunks = collect_slice(&source, config);
    let second = chunks[1];
    let table = signatures_fastcdc(&source, config).unwrap();

    let short = &source[..second.offset as usize + second.length - 1];
    let mut out = Vec::new();
    let outcome = apply_fastcdc_into(&source, &table, config, short, &mut out);
    assert_eq!(
        outcome,
        Err(StrategyError::InvalidBasisSpan {
            offset: second.offset,
            len: second.length,
        })
    );
    assert_eq!(out, short);
}
