use std::collections::HashMap;

use oni::block::Block;
use oni::delta::{compute_deltas, record_block, slice_dest, BlockDescriptor, Delta, FileMetadata};
use oni::path::SyncPath;

fn splice(deltas: &[Delta], blocks: &[Block]) -> Vec<u8> {
    let mut rebuilt = Vec::new();
    for delta in deltas {
        match delta {
            Delta::Literal(bytes) => rebuilt.extend_from_slice(bytes),
            Delta::Reference(index) => rebuilt.extend_from_slice(&blocks[*index].0),
        }
    }
    rebuilt
}

fn shape(deltas: &[Delta]) -> Vec<String> {
    deltas
        .iter()
        .map(|delta| match delta {
            Delta::Literal(bytes) => format!("literal {}", String::from_utf8_lossy(bytes)),
            Delta::Reference(index) => format!("reference {index}"),
        })
        .collect()
}

#[test]
fn known_blocks_become_references() {
    let (blocks, descriptors) = slice_dest(b"abcdefghij", 4);
    assert_eq!(blocks.len(), 3);
    assert_eq!(blocks[2].0, b"ij");

    let source = b"xxefghabcd!".to_vec();
    let deltas = compute_deltas(4, source.clone(), descriptors);

    assert_eq!(
        shape(&deltas),
        vec!["literal xx", "reference 1", "reference 0", "literal !"]
    );
    assert_eq!(splice(&deltas, &blocks), source);
}

#[test]
fn splicing_rebuilds_long_sources() {
    let destination: Vec<u8> = (0..20_000usize).map(|i| (i * 31 % 251) as u8).collect();
    let mut source = destination[300..9000].to_vec();
    source.extend_from_slice(b"inserted");
    source.extend_from_slice(&destination[9000..]);
    let (blocks, descriptors) = slice_dest(&destination, 256);

    let deltas = compute_deltas(256, source.clone(), descriptors);

    assert!(deltas.iter().any(|delta| matches!(delta, Delta::Reference(_))));
    assert_eq!(splice(&deltas, &blocks), source);
}

#[test]
fn short_sources_become_one_literal() {
    let (_, descriptors) = slice_dest(b"abcdefgh", 4);
    assert_eq!(
        shape(&compute_deltas(4, b"abc".to_vec(), descriptors)),
        vec!["literal abc"]
    );
    assert!(compute_deltas(4, Vec::new(), HashMap::new()).is_empty());
}

#[test]
fn blocks_of_no_size_slice_nothing() {
    let (blocks, descriptors) = slice_dest(b"abc", 0);
    assert!(blocks.is_empty());
    assert!(descriptors.is_empty());
}

#[test]
fn recorded_blocks_stand_under_half_of_their_checksum() {
    let mut blocks = Vec::new();
    let mut map = HashMap::new();
    record_block(&mut blocks, &mut map, b"abcd");
    record_block(&mut blocks, &mut map, b"dcba");

    // The same bytes in another order have the same plain sum, which is the key.
    let key = Block::cut_weak_checksum(Block::compute_weak_checksum(b"abcd"));
    let list: &Vec<BlockDescriptor> = &map[&key];
    assert_eq!(list.len(), 2);
    assert_eq!(list[0].index, 0);
    assert_eq!(list[1].index, 1);
    assert_eq!(list[0].strong, Block::compute_strong_checksum(b"abcd"));
    assert_ne!(list[0].weak, list[1].weak);
}

#[test]
fn the_empty_descriptor_is_recognised() {
    assert!(BlockDescriptor::new(0, vec![0], 0).is_empty());
    assert!(!BlockDescriptor::new(0, vec![], 0).is_empty());
    assert!(!BlockDescriptor::new(1, vec![0], 0).is_empty());
    assert!(!BlockDescriptor::new(0, vec![0], 1).is_empty());
}

#[test]
fn metadata_that_differs_asks_for_an_update() {
    let metadata = |len, permissions, modified| {
        FileMetadata::new(SyncPath::new(vec![]), len, permissions, modified, false)
    };
    let base = metadata(3, 0o644, Some(10));
    assert!(!base.needs_update(&metadata(3, 0o644, Some(10))));
    assert!(base.needs_update(&metadata(4, 0o644, Some(10))));
    assert!(base.needs_update(&metadata(3, 0o600, Some(10))));
    assert!(base.needs_update(&metadata(3, 0o644, Some(11))));
    assert!(base.needs_update(&metadata(3, 0o644, None)));
}
