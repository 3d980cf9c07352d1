//! Block deltas whose candidates are filtered by half of the rolling checksum.

use std::collections::HashMap;

use crate::block::Block;
use crate::digest::bytes_equal;
use crate::path::SyncPath;
use vstd::prelude::*;
use vstd::slice::slice_subrange;

verus! {

broadcast use vstd::std_specs::hash::group_hash_axioms;

/// What is known of a file or directory.
#[derive(Debug)]
pub struct FileMetadata {
    pub path: SyncPath,
    pub len: u64,
    pub permissions: u32,
    pub modified: Option<u64>,
    pub is_dir: bool,
}

impl FileMetadata {
    /// Records what is known of `path`.
    pub fn new(
        path: SyncPath,
        len: u64,
        permissions: u32,
        modified: Option<u64>,
        is_dir: bool,
    ) -> (metadata: Self)
        ensures
            metadata == (FileMetadata { path, len, permissions, modified, is_dir }),
    {
        FileMetadata { path, len, permissions, modified, is_dir }
    }

    /// Whether the destination differs in length, permissions or time.
    pub fn needs_update(&self, dest: &Self) -> (needed: bool)
        ensures
            needed == (self.len != dest.len || self.permissions != dest.permissions
                || self.modified != dest.modified),
    {
        let same_time = match (self.modified, dest.modified) {
            (Some(left), Some(right)) => left == right,
            (None, None) => true,
            _ => false,
        };
        self.len != dest.len || self.permissions != dest.permissions || !same_time
    }
}

/// One instruction of a delta.
#[derive(Debug, Clone)]
pub enum Delta {
    /// New data, sent from the source.
    Literal(Vec<u8>),
    /// The index of a block that the destination already has.
    Reference(usize),
}

/// What an instruction of a delta says.
pub enum Piece {
    Literal(Seq<u8>),
    Reference(usize),
}

impl View for Delta {
    type V = Piece;

    open spec fn view(&self) -> Piece {
        match self {
            Delta::Literal(bytes) => Piece::Literal(bytes@),
            Delta::Reference(index) => Piece::Reference(*index),
        }
    }
}

/// What the instructions say, in their order.
pub open spec fn pieces_of(deltas: Seq<Delta>) -> Seq<Piece> {
    deltas.map_values(|delta: Delta| delta@)
}

/// Checksums of one block of the destination.
#[derive(Debug)]
pub struct BlockDescriptor {
    pub weak: u32,
    pub strong: Vec<u8>,
    pub index: usize,
}

/// What a descriptor says.
pub struct Descriptor {
    pub weak: u32,
    pub strong: Seq<u8>,
    pub index: usize,
}

impl View for BlockDescriptor {
    type V = Descriptor;

    open spec fn view(&self) -> Descriptor {
        Descriptor { weak: self.weak, strong: self.strong@, index: self.index }
    }
}

/// What the descriptors say, in their order.
pub open spec fn descriptions(list: Seq<BlockDescriptor>) -> Seq<Descriptor> {
    list.map_values(|descriptor: BlockDescriptor| descriptor@)
}

impl BlockDescriptor {
    pub fn new(weak: u32, strong: Vec<u8>, index: usize) -> (descriptor: Self)
        ensures
            descriptor == (BlockDescriptor { weak, strong, index }),
    {
        BlockDescriptor { weak, strong, index }
    }

    /// Whether this is the descriptor that stands for no block.
    pub fn is_empty(&self) -> (empty: bool)
        ensures
            empty == (self.weak == 0 && self.strong@ == seq![0u8] && self.index == 0),
    {
        let zero: [u8; 1] = [0];
        assert(zero@ =~= seq![0u8]);
        self.weak == 0 && bytes_equal(self.strong.as_slice(), &zero) && self.index == 0
    }
}

/// The key under which a block is found: the low half of its rolling checksum.
pub open spec fn key_of(bytes: Seq<u8>) -> u16 {
    (crate::checksum::weak_of(bytes) as int % 65536) as u16
}

/// The descriptor of block number `index`.
pub open spec fn described(bytes: Seq<u8>, index: int) -> Descriptor {
    Descriptor {
        weak: crate::checksum::weak_of(bytes),
        strong: crate::digest::sha256_of(bytes),
        index: index as usize,
    }
}

/// The contents of the blocks.
pub open spec fn contents(blocks: Seq<Block>) -> Seq<Seq<u8>> {
    blocks.map_values(|block: Block| block.0@)
}

/// The descriptors of the blocks with the given key, in the order of the blocks.
pub open spec fn descriptors_for(blocks: Seq<Seq<u8>>, key: u16) -> Seq<Descriptor>
    decreases blocks.len(),
{
    if blocks.len() == 0 {
        Seq::empty()
    } else {
        let rest = descriptors_for(blocks.drop_last(), key);
        if key_of(blocks.last()) == key {
            rest.push(described(blocks.last(), blocks.len() - 1))
        } else {
            rest
        }
    }
}

/// What a map lists under `key`.
pub open spec fn descriptors_at(map: Map<u16, Vec<BlockDescriptor>>, key: u16) -> Seq<Descriptor> {
    if map.contains_key(key) {
        descriptions(map[key]@)
    } else {
        Seq::empty()
    }
}

/// Whether `map` lists the descriptors of `blocks` under their keys, and has no
/// other keys.
pub open spec fn indexes(map: Map<u16, Vec<BlockDescriptor>>, blocks: Seq<Seq<u8>>) -> bool {
    &&& forall|key: u16| #[trigger] descriptors_at(map, key) == descriptors_for(blocks, key)
    &&& forall|key: u16| #[trigger]
        map.contains_key(key) <==> descriptors_for(blocks, key).len() > 0
}

/// The index of the first descriptor from `from` on that has both checksums.
pub open spec fn first_with(
    list: Seq<Descriptor>,
    weak: u32,
    strong: Seq<u8>,
    from: int,
) -> Option<usize>
    decreases list.len() - from,
{
    if from < 0 || from >= list.len() {
        None
    } else if list[from].weak == weak && list[from].strong == strong {
        Some(list[from].index)
    } else {
        first_with(list, weak, strong, from + 1)
    }
}

/// The block that `window` is taken to hold.
pub open spec fn found(map: Map<u16, Vec<BlockDescriptor>>, window: Seq<u8>) -> Option<usize> {
    first_with(
        descriptors_at(map, key_of(window)),
        crate::checksum::weak_of(window),
        crate::digest::sha256_of(window),
        0,
    )
}

/// The instruction that carries `bytes`, or none if there are none.
pub open spec fn flushed(bytes: Seq<u8>) -> Seq<Piece> {
    if bytes.len() == 0 {
        Seq::empty()
    } else {
        seq![Piece::Literal(bytes)]
    }
}

/// The instructions for `source` from position `at` on, when the bytes
/// `literal` in front of it are still to be written.
pub open spec fn pieces_from(
    map: Map<u16, Vec<BlockDescriptor>>,
    block_size: usize,
    source: Seq<u8>,
    at: int,
    literal: Seq<u8>,
) -> Seq<Piece>
    decreases source.len() - at,
{
    if block_size == 0 || at < 0 || at + block_size > source.len() {
        flushed(literal + source.skip(at))
    } else {
        match found(map, source.subrange(at, at + block_size)) {
            Some(index) => flushed(literal) + seq![Piece::Reference(index)] + pieces_from(
                map,
                block_size,
                source,
                at + block_size,
                Seq::empty(),
            ),
            None => pieces_from(map, block_size, source, at + 1, literal.push(source[at])),
        }
    }
}

/// Lists one more block under its key.
pub fn record_block(
    blocks: &mut Vec<Block>,
    map: &mut HashMap<u16, Vec<BlockDescriptor>>,
    bytes: &[u8],
)
    requires
        indexes(old(map)@, contents(old(blocks)@)),
    ensures
        contents(final(blocks)@) == contents(old(blocks)@).push(bytes@),
        indexes(final(map)@, contents(final(blocks)@)),
{
    let ghost before = contents(blocks@);
    let block: Block = Block::from(bytes);
    let dest_weak: u32 = Block::compute_weak_checksum(block.0.as_slice());
    let dest_strong = Block::compute_strong_checksum(block.0.as_slice());
    let index: usize = blocks.len();
    let key: u16 = Block::cut_weak_checksum(dest_weak);
    let ghost earlier = map@;
    blocks.push(block);
    let mut list = match map.remove(&key) {
        Some(list) => list,
        None => Vec::new(),
    };
    let ghost listed = list@;
    assert(descriptions(listed) =~= descriptors_at(earlier, key));
    list.push(BlockDescriptor::new(dest_weak, dest_strong, index));
    let ghost grown = list@;
    map.insert(key, list);
    proof {
        let after = contents(blocks@);
        assert(after =~= before.push(bytes@));
        assert(after.drop_last() =~= before);
        assert(key == key_of(bytes@));
        assert(descriptions(grown) =~= descriptions(listed).push(described(bytes@, index as int)));
        assert forall|other: u16| #[trigger]
            descriptors_at(map@, other) == descriptors_for(after, other) by {
            assert(descriptors_at(earlier, other) == descriptors_for(before, other));
        }
        assert forall|other: u16| #[trigger]
            map@.contains_key(other) <==> descriptors_for(after, other).len() > 0 by {
            assert(earlier.contains_key(other) <==> descriptors_for(before, other).len() > 0);
        }
    }
}

/// Cuts the destination into blocks of `block_size` bytes, and lists them under
/// their keys. Blocks of no size give none.
pub fn slice_dest(data: &[u8], block_size: usize) -> (sliced: (
    Vec<Block>,
    HashMap<u16, Vec<BlockDescriptor>>,
))
    ensures
        contents(sliced.0@).len() == crate::strategy::fixed::block_count(
            data@.len() as int,
            block_size as int,
        ),
        forall|k: int|
            0 <= k < sliced.0@.len() ==> #[trigger] contents(sliced.0@)[k]
                == crate::strategy::fixed::block_at(data@, block_size as int, k),
        indexes(sliced.1@, contents(sliced.0@)),
{
    let mut blocks: Vec<Block> = Vec::new();
    let mut map: HashMap<u16, Vec<BlockDescriptor>> = HashMap::new();
    if block_size == 0 {
        return (blocks, map);
    }
    let mut offset: usize = 0;
    assert(0 * block_size == 0);
    while offset < data.len()
        invariant
            block_size > 0,
            offset <= data@.len(),
            offset < data@.len() ==> offset == blocks@.len() * block_size,
            offset <= blocks@.len() * block_size,
            (blocks@.len() - 1) * block_size < offset || (blocks@.len() == 0 && offset == 0),
            indexes(map@, contents(blocks@)),
            forall|k: int|
                0 <= k < blocks@.len() ==> #[trigger] contents(blocks@)[k]
                    == crate::strategy::fixed::block_at(data@, block_size as int, k),
        decreases data.len() - offset,
    {
        let ghost before = contents(blocks@);
        let end: usize = if data.len() - offset < block_size {
            data.len()
        } else {
            offset + block_size
        };
        record_block(&mut blocks, &mut map, slice_subrange(data, offset, end));
        proof {
            let count = before.len() as int;
            assert(contents(blocks@).len() == blocks@.len());
            assert(crate::strategy::fixed::block_at(data@, block_size as int, count)
                =~= data@.subrange(offset as int, end as int));
            assert((count + 1) * block_size == count * block_size + block_size)
                by (nonlinear_arith);
            assert forall|k: int| 0 <= k < blocks@.len() implies #[trigger] contents(blocks@)[k]
                == crate::strategy::fixed::block_at(data@, block_size as int, k) by {
                if k < count {
                    assert(before[k] == contents(blocks@)[k]);
                }
            }
        }
        offset = end;
    }
    proof {
        crate::strategy::fixed::lemma_block_count_found(
            data@.len() as int,
            block_size as int,
            blocks@.len() as int,
        );
    }
    (blocks, map)
}

/// The block that `window` is taken to hold, whose rolling checksum is `weak`.
/// The strong checksum is computed only for descriptors that share the weak one.
fn find_block(
    descriptors: &HashMap<u16, Vec<BlockDescriptor>>,
    window: &[u8],
    weak: u32,
) -> (index: Option<usize>)
    requires
        weak == crate::checksum::weak_of(window@),
    ensures
        index == found(descriptors@, window@),
{
    let key: u16 = Block::cut_weak_checksum(weak);
    let ghost strong = crate::digest::sha256_of(window@);
    match descriptors.get(&key) {
        Some(list) => {
            let ghost all = descriptions(list@);
            let mut position: usize = 0;
            while position < list.len()
                invariant
                    position <= list@.len(),
                    all == descriptions(list@),
                    found(descriptors@, window@) == first_with(all, weak, strong, 0),
                    strong == crate::digest::sha256_of(window@),
                    first_with(all, weak, strong, 0) == first_with(
                        all,
                        weak,
                        strong,
                        position as int,
                    ),
                decreases list.len() - position,
            {
                let descriptor = &list[position];
                assert(all[position as int] == descriptor@);
                if descriptor.weak == weak {
                    let src_strong = Block::compute_strong_checksum(window);
                    if bytes_equal(descriptor.strong.as_slice(), src_strong.as_slice()) {
                        return Some(descriptor.index);
                    }
                }
                position = position + 1;
            }
            None
        },
        None => None,
    }
}

/// The instructions that rebuild `buffer` out of the blocks in `descriptors`.
pub fn compute_deltas(
    block_size: usize,
    buffer: Vec<u8>,
    descriptors: HashMap<u16, Vec<BlockDescriptor>>,
) -> (deltas: Vec<Delta>)
    requires
        block_size > 0,
    ensures
        pieces_of(deltas@) == pieces_from(
            descriptors@,
            block_size,
            buffer@,
            0,
            Seq::empty(),
        ),
{
    let ghost map = descriptors@;
    let ghost source = buffer@;
    let mut previous_checksum: Option<u32> = None;
    let mut accumulated_bytes: Vec<u8> = Vec::new();
    let mut deltas: Vec<Delta> = Vec::new();
    let mut i: usize = 0;
    proof {
        let whole = pieces_from(map, block_size, source, 0, Seq::empty());
        assert(accumulated_bytes@ =~= Seq::<u8>::empty());
        assert(pieces_of(deltas@) + whole =~= whole);
    }
    while i <= buffer.len() && block_size <= buffer.len() - i
        invariant
            block_size > 0,
            i <= buffer@.len(),
            map == descriptors@,
            source == buffer@,
            previous_checksum matches Some(previous) ==> i > 0 && i - 1 + block_size
                <= source.len() && previous == crate::checksum::weak_of(
                source.subrange(i - 1, i - 1 + block_size),
            ),
            pieces_from(map, block_size, source, 0, Seq::empty()) == pieces_of(deltas@)
                + pieces_from(map, block_size, source, i as int, accumulated_bytes@),
        decreases buffer@.len() - i,
    {
        let ghost done = pieces_of(deltas@);
        let ghost pending = accumulated_bytes@;
        let window = slice_subrange(buffer.as_slice(), i, i + block_size);
        let src_weak: u32 = match previous_checksum {
            Some(previous) => {
                let old_byte: u8 = buffer[i - 1];
                let new_byte: u8 = buffer[i + block_size - 1];
                proof {
                    let earlier = source.subrange(i - 1, i - 1 + block_size);
                    crate::checksum::lemma_rolling_matches_recomputation(earlier, new_byte);
                    assert(earlier.drop_first().push(new_byte) =~= window@);
                }
                Block::update_weak_checksum(previous, old_byte, new_byte, block_size)
            },
            None => Block::compute_weak_checksum(window),
        };
        match find_block(&descriptors, window, src_weak) {
            Some(index) => {
                if accumulated_bytes.len() > 0 {
                    let mut literal: Vec<u8> = Vec::new();
                    std::mem::swap(&mut literal, &mut accumulated_bytes);
                    deltas.push(Delta::Literal(literal));
                }
                deltas.push(Delta::Reference(index));
                previous_checksum = None;
                proof {
                    let rest = pieces_from(
                        map,
                        block_size,
                        source,
                        i + block_size,
                        Seq::empty(),
                    );
                    assert(accumulated_bytes@ =~= Seq::<u8>::empty());
                    assert(pieces_of(deltas@) =~= done + flushed(pending) + seq![
                        Piece::Reference(index),
                    ]);
                    assert(done + (flushed(pending) + seq![Piece::Reference(index)] + rest)
                        =~= pieces_of(deltas@) + rest);
                }
                i = i + block_size;
            },
            None => {
                previous_checksum = Some(src_weak);
                accumulated_bytes.push(buffer[i]);
                i = i + 1;
            },
        }
    }
    let ghost done = pieces_of(deltas@);
    let ghost pending = accumulated_bytes@;
    accumulated_bytes.extend_from_slice(slice_subrange(buffer.as_slice(), i, buffer.len()));
    assert(accumulated_bytes@ =~= pending + source.skip(i as int));
    if accumulated_bytes.len() > 0 {
        deltas.push(Delta::Literal(accumulated_bytes));
    }
    assert(pieces_of(deltas@) =~= done + flushed(pending + source.skip(i as int)));
    deltas
}

/// What `pieces` say when they are put together out of `blocks`.
pub open spec fn spliced(pieces: Seq<Piece>, blocks: Seq<Seq<u8>>) -> Seq<u8>
    decreases pieces.len(),
{
    if pieces.len() == 0 {
        Seq::empty()
    } else {
        let rest = spliced(pieces.drop_first(), blocks);
        match pieces[0] {
            Piece::Literal(bytes) => bytes + rest,
            Piece::Reference(index) => blocks[index as int] + rest,
        }
    }
}

/// Whether every reference names one of the blocks.
pub open spec fn refers_to(pieces: Seq<Piece>, blocks: Seq<Seq<u8>>) -> bool {
    forall|k: int|
        0 <= k < pieces.len() ==> (#[trigger] pieces[k] matches Piece::Reference(index) ==> index
            < blocks.len())
}

/// Whether no block shares both checksums with a window of `source` that holds
/// other bytes.
pub open spec fn collision_free(
    blocks: Seq<Seq<u8>>,
    source: Seq<u8>,
    block_size: usize,
) -> bool {
    forall|k: int, at: int|
        #![trigger blocks[k], source.subrange(at, at + block_size)]
        0 <= k < blocks.len() && 0 <= at && at + block_size <= source.len() ==> {
            let window = source.subrange(at, at + block_size);
            crate::checksum::weak_of(blocks[k]) == crate::checksum::weak_of(window)
                && crate::digest::sha256_of(blocks[k]) == crate::digest::sha256_of(window)
                ==> blocks[k] == window
        }
}

/// A descriptor with both checksums names a block that has them.
proof fn lemma_first_with_describes(
    blocks: Seq<Seq<u8>>,
    key: u16,
    weak: u32,
    strong: Seq<u8>,
    from: int,
)
    requires
        blocks.len() <= usize::MAX,
        0 <= from,
    ensures
        first_with(descriptors_for(blocks, key), weak, strong, from) matches Some(index) ==> index
            < blocks.len() && crate::checksum::weak_of(blocks[index as int]) == weak
            && crate::digest::sha256_of(blocks[index as int]) == strong,
    decreases descriptors_for(blocks, key).len() - from,
{
    let list = descriptors_for(blocks, key);
    if from < list.len() {
        lemma_listed_is_described(blocks, key, from);
        if !(list[from].weak == weak && list[from].strong == strong) {
            lemma_first_with_describes(blocks, key, weak, strong, from + 1);
        }
    }
}

proof fn lemma_listed_is_described(blocks: Seq<Seq<u8>>, key: u16, position: int)
    requires
        blocks.len() <= usize::MAX,
        0 <= position < descriptors_for(blocks, key).len(),
    ensures
        ({
            let descriptor = descriptors_for(blocks, key)[position];
            &&& descriptor.index < blocks.len()
            &&& descriptor == described(
                blocks[descriptor.index as int],
                descriptor.index as int,
            )
        }),
    decreases blocks.len(),
{
    let rest = descriptors_for(blocks.drop_last(), key);
    if position < rest.len() {
        lemma_listed_is_described(blocks.drop_last(), key, position);
    }
}

proof fn lemma_splice_flushed(literal: Seq<u8>, rest: Seq<Piece>, blocks: Seq<Seq<u8>>)
    ensures
        spliced(flushed(literal) + rest, blocks) == literal + spliced(rest, blocks),
        refers_to(rest, blocks) ==> refers_to(flushed(literal) + rest, blocks),
{
    let pieces = flushed(literal) + rest;
    if literal.len() == 0 {
        assert(pieces =~= rest);
        assert(literal + spliced(rest, blocks) =~= spliced(rest, blocks));
    } else {
        assert(pieces.drop_first() =~= rest);
        assert forall|k: int| refers_to(rest, blocks) && 0 <= k < pieces.len() implies (
        #[trigger] pieces[k] matches Piece::Reference(index) ==> index < blocks.len()) by {
            if k > 0 {
                assert(pieces[k] == rest[k - 1]);
            }
        }
    }
}

proof fn lemma_pieces_rebuild(
    map: Map<u16, Vec<BlockDescriptor>>,
    blocks: Seq<Seq<u8>>,
    block_size: usize,
    source: Seq<u8>,
    at: int,
    literal: Seq<u8>,
)
    requires
        block_size > 0,
        blocks.len() <= usize::MAX,
        indexes(map, blocks),
        collision_free(blocks, source, block_size),
        0 <= at <= source.len(),
    ensures
        spliced(pieces_from(map, block_size, source, at, literal), blocks) == literal
            + source.skip(at),
        refers_to(pieces_from(map, block_size, source, at, literal), blocks),
    decreases source.len() - at,
{
    if at + block_size > source.len() {
        let rest = literal + source.skip(at);
        assert(flushed(rest) + Seq::<Piece>::empty() =~= flushed(rest));
        lemma_splice_flushed(rest, Seq::empty(), blocks);
        assert(rest + Seq::<u8>::empty() =~= rest);
    } else {
        let window = source.subrange(at, at + block_size);
        let (weak, strong) = (crate::checksum::weak_of(window), crate::digest::sha256_of(window));
        assert(descriptors_at(map, key_of(window)) == descriptors_for(blocks, key_of(window)));
        lemma_first_with_describes(blocks, key_of(window), weak, strong, 0);
        match found(map, window) {
            Some(index) => {
                assert(blocks[index as int] == window);
                let after = pieces_from(map, block_size, source, at + block_size, Seq::empty());
                lemma_pieces_rebuild(
                    map,
                    blocks,
                    block_size,
                    source,
                    at + block_size,
                    Seq::empty(),
                );
                let reference = Piece::Reference(index);
                let pieces = seq![reference] + after;
                assert(flushed(literal) + seq![reference] + after =~= flushed(literal) + pieces);
                assert(pieces.drop_first() =~= after);
                assert forall|k: int| 0 <= k < pieces.len() implies (
                #[trigger] pieces[k] matches Piece::Reference(named) ==> named < blocks.len()) by {
                    if k > 0 {
                        assert(pieces[k] == after[k - 1]);
                    }
                }
                lemma_splice_flushed(literal, pieces, blocks);
                assert(literal + (window + (Seq::<u8>::empty() + source.skip(at + block_size)))
                    =~= literal + source.skip(at));
            },
            None => {
                lemma_pieces_rebuild(
                    map,
                    blocks,
                    block_size,
                    source,
                    at + 1,
                    literal.push(source[at]),
                );
                assert(literal.push(source[at]) + source.skip(at + 1) =~= literal + source.skip(
                    at,
                ));
            },
        }
    }
}

/// Putting the instructions for a source together out of the destination's
/// blocks gives the source, as long as no two different blocks share both
/// checksums.
pub proof fn lemma_deltas_rebuild_the_source(
    map: Map<u16, Vec<BlockDescriptor>>,
    blocks: Seq<Seq<u8>>,
    block_size: usize,
    source: Seq<u8>,
)
    requires
        block_size > 0,
        blocks.len() <= usize::MAX,
        indexes(map, blocks),
        collision_free(blocks, source, block_size),
    ensures
        ({
            let pieces = pieces_from(map, block_size, source, 0, Seq::empty());
            &&& refers_to(pieces, blocks)
            &&& spliced(pieces, blocks) == source
        }),
{
    lemma_pieces_rebuild(map, blocks, block_size, source, 0, Seq::empty());
    assert(Seq::<u8>::empty() + source.skip(0) =~= source);
}

/// How many bytes of the source an instruction stands for.
pub open spec fn span_of(piece: Piece, block_size: usize) -> int {
    match piece {
        Piece::Literal(bytes) => bytes.len() as int,
        Piece::Reference(_) => block_size as int,
    }
}

/// Where in the source instruction `k` stands: behind all that the earlier ones stand
/// for.
pub open spec fn position_of(pieces: Seq<Piece>, block_size: usize, k: int) -> int
    decreases pieces.len(),
{
    if k <= 0 || pieces.len() == 0 {
        0
    } else {
        span_of(pieces[0], block_size) + position_of(pieces.drop_first(), block_size, k - 1)
    }
}

/// Whether two runs of bytes have both checksums in common.
pub open spec fn same_checksums(left: Seq<u8>, right: Seq<u8>) -> bool {
    &&& crate::checksum::weak_of(left) == crate::checksum::weak_of(right)
    &&& crate::digest::sha256_of(left) == crate::digest::sha256_of(right)
}

/// Whether `index` is the first block with the checksums of `window`.
pub open spec fn first_known(blocks: Seq<Seq<u8>>, window: Seq<u8>, index: int) -> bool {
    &&& 0 <= index < blocks.len()
    &&& same_checksums(blocks[index], window)
    &&& forall|c: int| 0 <= c < index ==> !same_checksums(#[trigger] blocks[c], window)
}

/// Whether no block has the checksums of `window`.
pub open spec fn unknown(blocks: Seq<Seq<u8>>, window: Seq<u8>) -> bool {
    forall|c: int| 0 <= c < blocks.len() ==> !same_checksums(#[trigger] blocks[c], window)
}

/// Whether the list under `key` has the descriptor of block `index` at `position`.
spec fn lists_at(blocks: Seq<Seq<u8>>, key: u16, index: int, position: int) -> bool {
    let list = descriptors_for(blocks, key);
    0 <= position < list.len() && list[position].index == index
}

/// A block is listed under its key.
proof fn lemma_block_is_listed(blocks: Seq<Seq<u8>>, index: int) -> (position: int)
    requires
        blocks.len() <= usize::MAX,
        0 <= index < blocks.len(),
    ensures
        lists_at(blocks, key_of(blocks[index]), index, position),
    decreases blocks.len(),
{
    let key = key_of(blocks[index]);
    let rest = blocks.drop_last();
    if index == blocks.len() - 1 {
        descriptors_for(rest, key).len() as int
    } else {
        let position = lemma_block_is_listed(rest, index);
        assert(rest[index] == blocks[index]);
        position
    }
}

/// The blocks of a list stand in their order.
proof fn lemma_listed_in_order(blocks: Seq<Seq<u8>>, key: u16, first: int, second: int)
    requires
        blocks.len() <= usize::MAX,
        0 <= first < second < descriptors_for(blocks, key).len(),
    ensures
        descriptors_for(blocks, key)[first].index < descriptors_for(blocks, key)[second].index,
    decreases blocks.len(),
{
    let rest = blocks.drop_last();
    let list = descriptors_for(rest, key);
    if second < list.len() {
        lemma_listed_in_order(rest, key, first, second);
    } else {
        lemma_listed_is_described(rest, key, first);
    }
}

/// `first_with` answers with the first descriptor that has both checksums.
proof fn lemma_first_with_is_first(list: Seq<Descriptor>, weak: u32, strong: Seq<u8>, from: int)
    requires
        0 <= from <= list.len(),
    ensures
        match first_with(list, weak, strong, from) {
            Some(index) => exists|n: int|
                from <= n < list.len() && (#[trigger] list[n]).weak == weak && list[n].strong
                    == strong && list[n].index == index && forall|m: int|
                    from <= m < n ==> !((#[trigger] list[m]).weak == weak && list[m].strong
                        == strong),
            None => forall|m: int|
                from <= m < list.len() ==> !((#[trigger] list[m]).weak == weak && list[m].strong
                    == strong),
        },
    decreases list.len() - from,
{
    if from < list.len() {
        if list[from].weak == weak && list[from].strong == strong {
        } else {
            lemma_first_with_is_first(list, weak, strong, from + 1);
        }
    }
}

/// A window is found as the first block with its checksums, and only if there is one.
proof fn lemma_found_is_first_known(
    map: Map<u16, Vec<BlockDescriptor>>,
    blocks: Seq<Seq<u8>>,
    window: Seq<u8>,
)
    requires
        blocks.len() <= usize::MAX,
        indexes(map, blocks),
    ensures
        match found(map, window) {
            Some(index) => first_known(blocks, window, index as int),
            None => unknown(blocks, window),
        },
{
    let key = key_of(window);
    let (weak, strong) = (crate::checksum::weak_of(window), crate::digest::sha256_of(window));
    let list = descriptors_for(blocks, key);
    assert(descriptors_at(map, key) == list);
    lemma_first_with_is_first(list, weak, strong, 0);
    match found(map, window) {
        Some(index) => {
            let n = choose|n: int|
                0 <= n < list.len() && (#[trigger] list[n]).weak == weak && list[n].strong
                    == strong && list[n].index == index && forall|m: int|
                    0 <= m < n ==> !((#[trigger] list[m]).weak == weak && list[m].strong == strong);
            lemma_listed_is_described(blocks, key, n);
            assert forall|c: int| 0 <= c < index implies !same_checksums(
                #[trigger] blocks[c],
                window,
            ) by {
                if same_checksums(blocks[c], window) {
                    let m = lemma_block_is_listed(blocks, c);
                    lemma_listed_is_described(blocks, key, m);
                    if m > n {
                        lemma_listed_in_order(blocks, key, n, m);
                    }
                }
            }
        },
        None => {
            assert forall|c: int| 0 <= c < blocks.len() implies !same_checksums(
                #[trigger] blocks[c],
                window,
            ) by {
                if same_checksums(blocks[c], window) {
                    let m = lemma_block_is_listed(blocks, c);
                    lemma_listed_is_described(blocks, key, m);
                }
            }
        },
    }
}

/// Whether `piece`, standing at `at` with `next` behind it, is what the blocks allow
/// there.
spec fn well_placed(
    blocks: Seq<Seq<u8>>,
    block_size: usize,
    source: Seq<u8>,
    piece: Piece,
    next: Option<Piece>,
    at: int,
) -> bool {
    match piece {
        Piece::Literal(bytes) => {
            &&& bytes.len() > 0
            &&& 0 <= at && at + bytes.len() <= source.len()
            &&& bytes == source.subrange(at, at + bytes.len())
            &&& !(next matches Some(Piece::Literal(_)))
            &&& unknown_between(blocks, block_size, source, at, at + bytes.len())
        },
        Piece::Reference(index) => {
            &&& 0 <= at && at + block_size <= source.len()
            &&& first_known(blocks, source.subrange(at, at + block_size), index as int)
        },
    }
}

/// Whether no window that starts in front of `upto`, from `from` on, is known.
pub open spec fn unknown_between(
    blocks: Seq<Seq<u8>>,
    block_size: usize,
    source: Seq<u8>,
    from: int,
    upto: int,
) -> bool {
    forall|p: int|
        from <= p < upto && p + block_size <= source.len() ==> unknown(
            blocks,
            #[trigger] source.subrange(p, p + block_size),
        )
}

spec fn head(pieces: Seq<Piece>) -> Option<Piece> {
    if pieces.len() > 0 {
        Some(pieces[0])
    } else {
        None
    }
}

/// Whether the instructions, standing one behind the other from `at` on, are all well
/// placed and reach the end of the source.
spec fn lays_out(
    blocks: Seq<Seq<u8>>,
    block_size: usize,
    source: Seq<u8>,
    pieces: Seq<Piece>,
    at: int,
) -> bool
    decreases pieces.len(),
{
    if pieces.len() == 0 {
        at == source.len()
    } else {
        &&& well_placed(blocks, block_size, source, pieces[0], head(pieces.drop_first()), at)
        &&& lays_out(
            blocks,
            block_size,
            source,
            pieces.drop_first(),
            at + span_of(pieces[0], block_size),
        )
    }
}

proof fn lemma_lays_out_each(
    blocks: Seq<Seq<u8>>,
    block_size: usize,
    source: Seq<u8>,
    pieces: Seq<Piece>,
    at: int,
    k: int,
)
    requires
        lays_out(blocks, block_size, source, pieces, at),
        0 <= k <= pieces.len(),
    ensures
        k < pieces.len() ==> well_placed(
            blocks,
            block_size,
            source,
            pieces[k],
            head(pieces.skip(k + 1)),
            at + position_of(pieces, block_size, k),
        ),
        k == pieces.len() ==> at + position_of(pieces, block_size, k) == source.len(),
    decreases k,
{
    if k == 0 {
        if pieces.len() > 0 {
            assert(pieces.skip(1) =~= pieces.drop_first());
        }
    } else {
        let rest = pieces.drop_first();
        let next = at + span_of(pieces[0], block_size);
        lemma_lays_out_each(blocks, block_size, source, rest, next, k - 1);
        if k < pieces.len() {
            assert(rest[k - 1] == pieces[k]);
            assert(rest.skip(k) =~= pieces.skip(k + 1));
        }
    }
}

proof fn lemma_pieces_lay_out(
    map: Map<u16, Vec<BlockDescriptor>>,
    blocks: Seq<Seq<u8>>,
    block_size: usize,
    source: Seq<u8>,
    from: int,
    at: int,
)
    requires
        block_size > 0,
        blocks.len() <= usize::MAX,
        indexes(map, blocks),
        0 <= from <= at <= source.len(),
        unknown_between(blocks, block_size, source, from, at),
    ensures
        lays_out(
            blocks,
            block_size,
            source,
            pieces_from(map, block_size, source, at, source.subrange(from, at)),
            from,
        ),
    decreases source.len() - at,
{
    let literal = source.subrange(from, at);
    let pieces = pieces_from(map, block_size, source, at, literal);
    if at + block_size > source.len() {
        let rest = literal + source.skip(at);
        assert(rest =~= source.subrange(from, source.len() as int));
        if rest.len() > 0 {
            assert(pieces.drop_first() =~= Seq::<Piece>::empty());
            assert(pieces[0] == Piece::Literal(rest));
            assert(well_placed(blocks, block_size, source, pieces[0], None, from));
            assert(lays_out(
                blocks,
                block_size,
                source,
                Seq::<Piece>::empty(),
                source.len() as int,
            ));
        }
    } else {
        let window = source.subrange(at, at + block_size);
        lemma_found_is_first_known(map, blocks, window);
        match found(map, window) {
            Some(index) => {
                let reference = Piece::Reference(index);
                let next = at + block_size;
                let after = pieces_from(map, block_size, source, next, Seq::empty());
                assert(source.subrange(next, next) =~= Seq::<u8>::empty());
                lemma_pieces_lay_out(map, blocks, block_size, source, next, next);
                let tail = seq![reference] + after;
                assert(tail.drop_first() =~= after);
                assert(well_placed(blocks, block_size, source, reference, head(after), at));
                assert(lays_out(blocks, block_size, source, tail, at));
                assert(pieces =~= flushed(literal) + tail);
                if literal.len() == 0 {
                    assert(pieces =~= tail);
                } else {
                    assert(pieces.drop_first() =~= tail);
                    assert(pieces[0] == Piece::Literal(literal));
                    assert(well_placed(
                        blocks,
                        block_size,
                        source,
                        pieces[0],
                        Some(reference),
                        from,
                    ));
                }
            },
            None => {
                assert(literal.push(source[at]) =~= source.subrange(from, at + 1));
                assert(unknown_between(blocks, block_size, source, from, at + 1));
                lemma_pieces_lay_out(map, blocks, block_size, source, from, at + 1);
            },
        }
    }
}

/// The instructions for a source stand for all of it, one behind the other. Each literal
/// is the run of the source where it stands, is not empty and has no other literal
/// behind it. No window that starts in a literal has both checksums of a block. Each
/// reference is to the first block that has the checksums of the window where it stands.
pub proof fn lemma_deltas_find_every_known_block(
    map: Map<u16, Vec<BlockDescriptor>>,
    blocks: Seq<Seq<u8>>,
    block_size: usize,
    source: Seq<u8>,
)
    requires
        block_size > 0,
        blocks.len() <= usize::MAX,
        indexes(map, blocks),
    ensures
        ({
            let pieces = pieces_from(map, block_size, source, 0, Seq::empty());
            &&& position_of(pieces, block_size, pieces.len() as int) == source.len()
            &&& forall|k: int|
                #![trigger pieces[k]]
                0 <= k < pieces.len() ==> {
                    let at = position_of(pieces, block_size, k);
                    match pieces[k] {
                        Piece::Literal(bytes) => {
                            &&& bytes.len() > 0
                            &&& at + bytes.len() <= source.len()
                            &&& bytes == source.subrange(at, at + bytes.len())
                            &&& k + 1 < pieces.len() ==> pieces[k + 1] is Reference
                            &&& forall|p: int, b: int|
                                #![trigger source.subrange(p, p + block_size), blocks[b]]
                                at <= p < at + bytes.len() && p + block_size <= source.len() && 0
                                    <= b < blocks.len() ==> !same_checksums(
                                    blocks[b],
                                    source.subrange(p, p + block_size),
                                )
                        },
                        Piece::Reference(index) => {
                            &&& at + block_size <= source.len()
                            &&& first_known(
                                blocks,
                                source.subrange(at, at + block_size),
                                index as int,
                            )
                        },
                    }
                }
        }),
{
    let pieces = pieces_from(map, block_size, source, 0, Seq::empty());
    assert(source.subrange(0, 0) =~= Seq::<u8>::empty());
    lemma_pieces_lay_out(map, blocks, block_size, source, 0, 0);
    lemma_lays_out_each(blocks, block_size, source, pieces, 0, pieces.len() as int);
    assert forall|k: int| #![trigger pieces[k]] 0 <= k < pieces.len() implies well_placed(
        blocks,
        block_size,
        source,
        pieces[k],
        head(pieces.skip(k + 1)),
        position_of(pieces, block_size, k),
    ) && (k + 1 < pieces.len() ==> head(pieces.skip(k + 1)) == Some(pieces[k + 1])) by {
        lemma_lays_out_each(blocks, block_size, source, pieces, 0, k);
    }
}

proof fn lemma_pieces_pass(
    map: Map<u16, Vec<BlockDescriptor>>,
    blocks: Seq<Seq<u8>>,
    block_size: usize,
    source: Seq<u8>,
    at: int,
    upto: int,
    literal: Seq<u8>,
)
    requires
        block_size > 0,
        blocks.len() <= usize::MAX,
        indexes(map, blocks),
        0 <= at <= upto,
        upto + block_size <= source.len(),
        unknown_between(blocks, block_size, source, at, upto),
    ensures
        pieces_from(map, block_size, source, at, literal) == pieces_from(
            map,
            block_size,
            source,
            upto,
            literal + source.subrange(at, upto),
        ),
    decreases upto - at,
{
    if at == upto {
        assert(literal + source.subrange(at, upto) =~= literal);
    } else {
        let window = source.subrange(at, at + block_size);
        lemma_found_is_first_known(map, blocks, window);
        if let Some(index) = found(map, window) {
            assert(unknown(blocks, window));
            assert(!same_checksums(blocks[index as int], window));
        }
        lemma_pieces_pass(
            map,
            blocks,
            block_size,
            source,
            at + 1,
            upto,
            literal.push(source[at]),
        );
        assert(literal.push(source[at]) + source.subrange(at + 1, upto) =~= literal
            + source.subrange(at, upto));
    }
}

proof fn lemma_pieces_shift(
    map: Map<u16, Vec<BlockDescriptor>>,
    block_size: usize,
    front: Seq<u8>,
    source: Seq<u8>,
    at: int,
    literal: Seq<u8>,
)
    requires
        block_size > 0,
        0 <= at <= source.len(),
    ensures
        pieces_from(map, block_size, front + source, front.len() + at, literal) == pieces_from(
            map,
            block_size,
            source,
            at,
            literal,
        ),
    decreases source.len() - at,
{
    let whole = front + source;
    let there = front.len() + at;
    if at + block_size > source.len() {
        assert(whole.skip(there) =~= source.skip(at));
    } else {
        assert(whole.subrange(there, there + block_size) =~= source.subrange(at, at + block_size));
        lemma_pieces_shift(map, block_size, front, source, at + block_size, Seq::empty());
        lemma_pieces_shift(map, block_size, front, source, at + 1, literal.push(source[at]));
        assert(whole[there] == source[at]);
    }
}

/// Bytes in which no known window starts, in front of something that starts with a known
/// block, become a literal in front of what that becomes on its own.
pub proof fn lemma_unknown_prefix_is_one_literal(
    map: Map<u16, Vec<BlockDescriptor>>,
    blocks: Seq<Seq<u8>>,
    block_size: usize,
    prefix: Seq<u8>,
    rest: Seq<u8>,
)
    requires
        block_size > 0,
        blocks.len() <= usize::MAX,
        indexes(map, blocks),
        rest.len() >= block_size,
        !unknown(blocks, rest.take(block_size as int)),
        unknown_between(blocks, block_size, prefix + rest, 0, prefix.len() as int),
    ensures
        pieces_from(map, block_size, prefix + rest, 0, Seq::empty()) == (if prefix.len() == 0 {
            Seq::<Piece>::empty()
        } else {
            seq![Piece::Literal(prefix)]
        }) + pieces_from(map, block_size, rest, 0, Seq::empty()),
{
    let source = prefix + rest;
    let at = prefix.len() as int;
    let window = source.subrange(at, at + block_size);
    assert(window =~= rest.take(block_size as int));
    assert(rest.subrange(0, block_size as int) =~= window);
    lemma_pieces_pass(map, blocks, block_size, source, 0, at, Seq::empty());
    assert(Seq::<u8>::empty() + source.subrange(0, at) =~= prefix);
    lemma_found_is_first_known(map, blocks, window);
    let index = found(map, window)->0;
    lemma_pieces_shift(map, block_size, prefix, rest, block_size as int, Seq::empty());
    let after = pieces_from(map, block_size, rest, block_size as int, Seq::empty());
    assert(flushed(Seq::<u8>::empty()) + seq![Piece::Reference(index)] + after =~= seq![
        Piece::Reference(index),
    ] + after);
    assert(pieces_from(map, block_size, source, 0, Seq::empty()) =~= flushed(prefix) + (seq![
        Piece::Reference(index),
    ] + after));
}

proof fn lemma_identical_from(
    map: Map<u16, Vec<BlockDescriptor>>,
    blocks: Seq<Seq<u8>>,
    block_size: usize,
    data: Seq<u8>,
    index: int,
)
    requires
        block_size > 0,
        blocks.len() <= usize::MAX,
        indexes(map, blocks),
        blocks.len() == crate::strategy::fixed::block_count(data.len() as int, block_size as int),
        forall|k: int|
            0 <= k < blocks.len() ==> #[trigger] blocks[k] == crate::strategy::fixed::block_at(
                data,
                block_size as int,
                k,
            ),
        0 <= index,
        index * block_size <= data.len(),
    ensures
        ({
            let pieces = pieces_from(map, block_size, data, index * block_size, Seq::empty());
            let whole = data.len() as int / block_size as int;
            let tail = data.skip(whole * block_size);
            &&& pieces.len() == whole - index + (if tail.len() == 0 {
                0int
            } else {
                1int
            })
            &&& forall|i: int|
                #![trigger pieces[i]]
                0 <= i < whole - index ==> (pieces[i] matches Piece::Reference(named)
                    && first_known(
                    blocks,
                    data.subrange((index + i) * block_size, (index + i) * block_size + block_size),
                    named as int,
                ))
            &&& tail.len() > 0 ==> pieces.last() == Piece::Literal(tail)
        }),
    decreases data.len() - index * block_size,
{
    let at = index * block_size;
    let whole = data.len() as int / block_size as int;
    let pieces = pieces_from(map, block_size, data, at, Seq::empty());
    let tail = data.skip(whole * block_size);
    vstd::arithmetic::div_mod::lemma_fundamental_div_mod(data.len() as int, block_size as int);
    assert(whole * block_size == block_size * whole) by (nonlinear_arith);
    assert((index + 1) * block_size == at + block_size) by (nonlinear_arith)
        requires
            at == index * block_size,
    ;
    assert(0 <= at) by (nonlinear_arith)
        requires
            at == index * block_size,
            index >= 0,
            block_size > 0,
    ;
    if at + block_size > data.len() {
        vstd::arithmetic::div_mod::lemma_fundamental_div_mod_converse(
            data.len() as int,
            block_size as int,
            index,
            data.len() - at,
        );
        assert(whole == index);
        assert(Seq::<u8>::empty() + data.skip(at) =~= tail);
        assert(pieces =~= flushed(tail));
    } else {
        let window = data.subrange(at, at + block_size);
        assert(crate::strategy::fixed::block_at(data, block_size as int, index) =~= window);
        assert(index < whole) by (nonlinear_arith)
            requires
                block_size > 0,
                index * block_size + block_size <= data.len(),
                data.len() == block_size * whole + data.len() as int % block_size as int,
                (data.len() as int % block_size as int) < block_size,
        ;
        assert(whole <= blocks.len()) by {
            vstd::arithmetic::div_mod::lemma_div_is_ordered(
                data.len() as int,
                data.len() + block_size - 1,
                block_size as int,
            );
        }
        assert(blocks[index] == window);
        assert(same_checksums(blocks[index], window));
        lemma_found_is_first_known(map, blocks, window);
        let named = found(map, window)->0;
        let after = pieces_from(map, block_size, data, at + block_size, Seq::empty());
        lemma_identical_from(map, blocks, block_size, data, index + 1);
        assert(pieces =~= seq![Piece::Reference(named)] + after);
        assert forall|i: int| #![trigger pieces[i]] 0 <= i < whole - index implies (
        pieces[i] matches Piece::Reference(other) && first_known(
            blocks,
            data.subrange((index + i) * block_size, (index + i) * block_size + block_size),
            other as int,
        )) by {
            if i > 0 {
                assert(pieces[i] == after[i - 1]);
                assert(index + 1 + (i - 1) == index + i);
            }
        }
        if tail.len() > 0 {
            assert(pieces.last() == after.last());
        }
    }
}

/// A source that is the destination, behind bytes in which no known window starts,
/// becomes one literal for those bytes, one reference for each full block, and one literal
/// for what is left of a last short block.
pub proof fn lemma_kept_blocks_are_referenced(
    map: Map<u16, Vec<BlockDescriptor>>,
    blocks: Seq<Seq<u8>>,
    block_size: usize,
    data: Seq<u8>,
    prefix: Seq<u8>,
)
    requires
        block_size > 0,
        blocks.len() <= usize::MAX,
        indexes(map, blocks),
        blocks.len() == crate::strategy::fixed::block_count(data.len() as int, block_size as int),
        forall|k: int|
            0 <= k < blocks.len() ==> #[trigger] blocks[k] == crate::strategy::fixed::block_at(
                data,
                block_size as int,
                k,
            ),
        data.len() >= block_size,
        unknown_between(blocks, block_size, prefix + data, 0, prefix.len() as int),
    ensures
        ({
            let pieces = pieces_from(map, block_size, prefix + data, 0, Seq::empty());
            let front = if prefix.len() == 0 {
                0int
            } else {
                1int
            };
            let full = data.len() as int / block_size as int;
            let tail = data.skip(full * block_size);
            &&& prefix.len() > 0 ==> pieces[0] == Piece::Literal(prefix)
            &&& pieces.len() == front + full + (if tail.len() == 0 {
                0int
            } else {
                1int
            })
            &&& forall|i: int|
                #![trigger pieces[front + i]]
                0 <= i < full ==> (pieces[front + i] matches Piece::Reference(named)
                    && first_known(
                    blocks,
                    data.subrange(i * block_size, i * block_size + block_size),
                    named as int,
                ))
            &&& tail.len() > 0 ==> pieces.last() == Piece::Literal(tail)
        }),
{
    let pieces = pieces_from(map, block_size, prefix + data, 0, Seq::empty());
    let alone = pieces_from(map, block_size, data, 0, Seq::empty());
    let front = if prefix.len() == 0 {
        0int
    } else {
        1int
    };
    let full = data.len() as int / block_size as int;
    assert(0 * block_size == 0);
    lemma_identical_from(map, blocks, block_size, data, 0);
    crate::strategy::fixed::lemma_some_bytes_have_some_block(
        data.len() as int,
        block_size as int,
    );
    assert(blocks[0] =~= data.take(block_size as int));
    assert(same_checksums(blocks[0], data.take(block_size as int)));
    lemma_unknown_prefix_is_one_literal(map, blocks, block_size, prefix, data);
    assert(alone.len() > 0) by {
        lemma_pieces_lay_out(map, blocks, block_size, data, 0, 0);
        assert(data.subrange(0, 0) =~= Seq::<u8>::empty());
    }
    assert(pieces.last() == alone.last());
    assert forall|i: int| #![trigger pieces[front + i]] 0 <= i < full implies (
    pieces[front + i] matches Piece::Reference(named) && first_known(
        blocks,
        data.subrange(i * block_size, i * block_size + block_size),
        named as int,
    )) by {
        assert(pieces[front + i] == alone[i]);
        assert(0 + i == i);
    }
}

} // verus!
