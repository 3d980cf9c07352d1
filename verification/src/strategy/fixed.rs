//! Fixed-size block deltas with a rolling checksum.
//!
//! 1. The receiver's file, the basis, becomes a [`SignatureTable`].
//! 2. The sender's file is scanned with a rolling window of one block.
//! 3. Every window that matches a block becomes [`RecipeChunk::Copy`].
//! 4. Every other run of bytes becomes [`RecipeChunk::Literal`].
//! 5. [`apply`] replays the recipe against the basis.
//!
//! The module holds the algorithm only: it reads no file and knows no
//! transport. A caller that streams a file feeds blocks to
//! [`SignatureTable::with_block`] and bytes to [`DeltaScanner::push`].

use std::collections::HashMap;

use crate::block::individual_block_size;
use crate::checksum::{roll_weak_checksum, weak_checksum};
use crate::digest::{bytes_equal, strong_checksum, strong_checksum_parts};
use crate::error::StrategyError;
use vstd::prelude::*;
use vstd::slice::slice_subrange;

verus! {

broadcast use vstd::std_specs::hash::group_hash_axioms;

/// Checksums of one block of a basis.
#[derive(Debug, Clone, Copy, PartialEq, Eq)]
pub struct BlockSignature {
    /// Cheap rolling checksum that filters candidate matches.
    pub weak: u32,
    /// Strong checksum that confirms a candidate.
    pub strong: [u8; 32],
    /// Index of the block inside the basis.
    pub block_index: usize,
    /// Real length of the block. The last block of a basis may be short.
    pub len: usize,
}

/// Whether `signature` holds the checksums of `block`, found at `block_index`.
pub open spec fn signs(signature: BlockSignature, block: Seq<u8>, block_index: int) -> bool {
    &&& signature.weak == crate::checksum::weak_of(block)
    &&& signature.strong@ == crate::digest::blake3_of(block)
    &&& signature.block_index == block_index
    &&& signature.len == block.len()
}

/// Number of blocks of `block_size` bytes that cover `len` bytes.
pub open spec fn block_count(len: int, block_size: int) -> int {
    if block_size <= 0 {
        0
    } else {
        (len + block_size - 1) / block_size
    }
}

/// Block `index` of `basis`, which is cut every `block_size` bytes.
pub open spec fn block_at(basis: Seq<u8>, block_size: int, index: int) -> Seq<u8> {
    let start = index * block_size;
    let end = if start + block_size <= basis.len() {
        start + block_size
    } else {
        basis.len() as int
    };
    basis.subrange(start, end)
}

/// Whether `blocks` are the signatures of `basis`, block by block.
pub open spec fn describes(blocks: Seq<BlockSignature>, basis: Seq<u8>, block_size: int) -> bool {
    &&& blocks.len() == block_count(basis.len() as int, block_size)
    &&& forall|k: int|
        0 <= k < blocks.len() ==> signs(#[trigger] blocks[k], block_at(basis, block_size, k), k)
}

/// Whether a block can be compared with a full window of checksum `weak`.
pub open spec fn candidate(signature: BlockSignature, block_size: usize, weak: u32) -> bool {
    signature.len == block_size && signature.weak == weak
}

/// Whether a block is taken to hold the bytes of `window`.
pub open spec fn matched(signature: BlockSignature, block_size: usize, window: Seq<u8>) -> bool {
    &&& candidate(signature, block_size, crate::checksum::weak_of(window))
    &&& signature.strong@ == crate::digest::blake3_of(window)
}

/// The first block from `from` on that matches `window`.
pub open spec fn first_match(
    blocks: Seq<BlockSignature>,
    block_size: usize,
    window: Seq<u8>,
    from: int,
) -> Option<int>
    decreases blocks.len() - from,
{
    if from < 0 || from >= blocks.len() {
        None
    } else if matched(blocks[from], block_size, window) {
        Some(from)
    } else {
        first_match(blocks, block_size, window, from + 1)
    }
}

proof fn lemma_first_match_found(
    blocks: Seq<BlockSignature>,
    block_size: usize,
    window: Seq<u8>,
    from: int,
    found: int,
)
    requires
        0 <= from <= found < blocks.len(),
        matched(blocks[found], block_size, window),
        forall|k: int| from <= k < found ==> !matched(#[trigger] blocks[k], block_size, window),
    ensures
        first_match(blocks, block_size, window, from) == Some(found),
    decreases found - from,
{
    if from < found {
        lemma_first_match_found(blocks, block_size, window, from + 1, found);
    }
}

proof fn lemma_first_match_absent(
    blocks: Seq<BlockSignature>,
    block_size: usize,
    window: Seq<u8>,
    from: int,
)
    requires
        0 <= from <= blocks.len(),
        forall|k: int|
            from <= k < blocks.len() ==> !matched(#[trigger] blocks[k], block_size, window),
    ensures
        first_match(blocks, block_size, window, from) is None,
    decreases blocks.len() - from,
{
    if from < blocks.len() {
        lemma_first_match_absent(blocks, block_size, window, from + 1);
    }
}

proof fn lemma_first_match_matches(
    blocks: Seq<BlockSignature>,
    block_size: usize,
    window: Seq<u8>,
    from: int,
)
    requires
        0 <= from,
    ensures
        first_match(blocks, block_size, window, from) matches Some(k) ==> from <= k < blocks.len()
            && matched(blocks[k], block_size, window),
    decreases blocks.len() - from,
{
    if from < blocks.len() && !matched(blocks[from], block_size, window) {
        lemma_first_match_matches(blocks, block_size, window, from + 1);
    }
}

/// Whether `list` holds, in order, the positions of the blocks that are
/// candidates for `weak`.
spec fn lists_candidates(
    list: Seq<usize>,
    blocks: Seq<BlockSignature>,
    block_size: usize,
    weak: u32,
) -> bool {
    &&& forall|i: int, j: int| 0 <= i < j < list.len() ==> list[i] < list[j]
    &&& forall|i: int|
        0 <= i < list.len() ==> #[trigger] list[i] < blocks.len() && candidate(
            blocks[list[i] as int],
            block_size,
            weak,
        )
    &&& forall|k: int|
        0 <= k < blocks.len() && candidate(#[trigger] blocks[k], block_size, weak)
            ==> list.contains(k as usize)
}

spec fn list_at(index: Map<u32, Vec<usize>>, weak: u32) -> Seq<usize> {
    if index.contains_key(weak) {
        index[weak]@
    } else {
        Seq::empty()
    }
}

/// Signatures of a basis, indexed by their rolling checksums.
#[derive(Debug, PartialEq, Eq)]
pub struct SignatureTable {
    /// Block size of the comparison.
    block_size: usize,
    /// Blocks of the basis in their order.
    blocks: Vec<BlockSignature>,
    /// Positions of the full blocks under each rolling checksum.
    by_weak: HashMap<u32, Vec<usize>>,
}

impl SignatureTable {
    #[verifier::type_invariant]
    spec fn indexed(self) -> bool {
        forall|weak: u32|
            lists_candidates(
                #[trigger] list_at(self.by_weak@, weak),
                self.blocks@,
                self.block_size,
                weak,
            )
    }

    pub closed spec fn spec_block_size(&self) -> usize {
        self.block_size
    }

    pub closed spec fn spec_blocks(&self) -> Seq<BlockSignature> {
        self.blocks@
    }

    /// The table of an empty basis.
    pub fn empty(block_size: usize) -> (table: Self)
        ensures
            table.spec_block_size() == block_size,
            table.spec_blocks() == Seq::<BlockSignature>::empty(),
    {
        SignatureTable { block_size, blocks: Vec::new(), by_weak: HashMap::new() }
    }

    /// Lists one more signature, and indexes it if it is that of a full block.
    fn with_signature(self, signature: BlockSignature) -> (table: Self)
        ensures
            table.spec_block_size() == self.spec_block_size(),
            table.spec_blocks() == self.spec_blocks().push(signature),
    {
        proof {
            use_type_invariant(&self);
        }
        let ghost before = self;
        let SignatureTable { block_size, mut blocks, mut by_weak } = self;
        let position: usize = blocks.len();
        let weak: u32 = signature.weak;
        if signature.len == block_size {
            let mut list = match by_weak.remove(&weak) {
                Some(list) => list,
                None => Vec::new(),
            };
            assert(list@ == list_at(before.by_weak@, weak));
            list.push(position);
            by_weak.insert(weak, list);
        }
        blocks.push(signature);
        proof {
            assert forall|other: u32|
                lists_candidates(
                    #[trigger] list_at(by_weak@, other),
                    blocks@,
                    block_size,
                    other,
                ) by {
                let old_list = list_at(before.by_weak@, other);
                let new_list = list_at(by_weak@, other);
                assert(lists_candidates(old_list, before.blocks@, block_size, other));
                assert forall|k: int|
                    0 <= k < blocks@.len() && candidate(
                        #[trigger] blocks@[k],
                        block_size,
                        other,
                    ) implies new_list.contains(k as usize) by {
                    if k < position {
                        assert(before.blocks@[k] == blocks@[k]);
                        let i = choose|i: int|
                            0 <= i < old_list.len() && old_list[i] == k as usize;
                        assert(new_list[i] == k as usize);
                    } else {
                        assert(new_list.last() == position);
                    }
                }
            }
        }
        SignatureTable { block_size, blocks, by_weak }
    }

    /// Records the next block of the basis. A block shorter than the block size
    /// is listed but never matched, since a window is always one full block.
    pub fn with_block(self, block: &[u8]) -> (table: Self)
        ensures
            table.spec_block_size() == self.spec_block_size(),
            table.spec_blocks().len() == self.spec_blocks().len() + 1,
            table.spec_blocks().drop_last() == self.spec_blocks(),
            signs(table.spec_blocks().last(), block@, self.spec_blocks().len() as int),
    {
        let signature = BlockSignature {
            weak: weak_checksum(block),
            strong: strong_checksum(block),
            block_index: self.blocks.len(),
            len: block.len(),
        };
        let table = self.with_signature(signature);
        assert(table.spec_blocks().drop_last() =~= self.spec_blocks());
        table
    }

    /// Block size of the comparison.
    pub fn block_size(&self) -> (size: usize)
        ensures
            size == self.spec_block_size(),
    {
        self.block_size
    }

    /// Blocks of the basis in their order.
    pub fn blocks(&self) -> (blocks: &[BlockSignature])
        ensures
            blocks@ == self.spec_blocks(),
    {
        self.blocks.as_slice()
    }
}

impl Clone for SignatureTable {
    fn clone(&self) -> (table: Self)
        ensures
            table.spec_block_size() == self.spec_block_size(),
            table.spec_blocks() == self.spec_blocks(),
    {
        let mut table = SignatureTable::empty(self.block_size);
        let mut index: usize = 0;
        while index < self.blocks.len()
            invariant
                index <= self.blocks@.len(),
                table.spec_block_size() == self.spec_block_size(),
                table.spec_blocks() == self.spec_blocks().take(index as int),
            decreases self.blocks.len() - index,
        {
            table = table.with_signature(self.blocks[index]);
            assert(self.spec_blocks().take(index as int).push(self.spec_blocks()[index as int])
                =~= self.spec_blocks().take(index + 1));
            index = index + 1;
        }
        assert(self.spec_blocks().take(index as int) =~= self.spec_blocks());
        table
    }
}

/// One instruction of a recipe.
#[derive(Debug, Clone, PartialEq, Eq)]
pub enum RecipeChunk {
    /// Raw bytes that match no block of the basis.
    Literal(Vec<u8>),
    /// Copy `len` bytes that start at `block_index * block_size` in the basis.
    Copy { block_index: usize, len: usize },
}

/// What an instruction of a recipe says.
pub enum Step {
    Literal(Seq<u8>),
    Copy { block_index: usize, len: usize },
}

impl View for RecipeChunk {
    type V = Step;

    open spec fn view(&self) -> Step {
        match self {
            RecipeChunk::Literal(bytes) => Step::Literal(bytes@),
            RecipeChunk::Copy { block_index, len } => Step::Copy {
                block_index: *block_index,
                len: *len,
            },
        }
    }
}

/// How to rebuild a source from a basis.
#[derive(Debug, Clone, PartialEq, Eq)]
pub struct Recipe {
    /// Block size of the signatures and of the copy references.
    pub block_size: usize,
    /// Instructions in their order.
    pub chunks: Vec<RecipeChunk>,
}

/// What the instructions `chunks` say.
pub open spec fn steps_of(chunks: Seq<RecipeChunk>) -> Seq<Step> {
    chunks.map_values(|chunk: RecipeChunk| chunk@)
}

/// The instruction that carries `bytes`, or none if there are none.
pub open spec fn flushed(bytes: Seq<u8>) -> Seq<Step> {
    if bytes.len() == 0 {
        Seq::empty()
    } else {
        seq![Step::Literal(bytes)]
    }
}

/// The instructions for `source` from position `at` on, when the bytes
/// `literal` in front of it are still to be written.
///
/// A full window at `at` that matches a block becomes a copy of the first such
/// block. Otherwise its first byte joins the literal and the window moves on by
/// one byte. What is left when no full window remains joins the literal too.
pub open spec fn scan(
    blocks: Seq<BlockSignature>,
    block_size: usize,
    source: Seq<u8>,
    at: int,
    literal: Seq<u8>,
) -> Seq<Step>
    decreases source.len() - at,
{
    if block_size == 0 || at < 0 || at + block_size > source.len() {
        flushed(literal + source.skip(at))
    } else {
        match first_match(blocks, block_size, source.subrange(at, at + block_size), 0) {
            Some(k) => flushed(literal) + seq![
                Step::Copy { block_index: blocks[k].block_index, len: blocks[k].len },
            ] + scan(blocks, block_size, source, at + block_size, Seq::empty()),
            None => scan(blocks, block_size, source, at + 1, literal.push(source[at])),
        }
    }
}

/// The instructions that rebuild `source`. Blocks of no size give none.
pub open spec fn recipe_steps(
    blocks: Seq<BlockSignature>,
    block_size: usize,
    source: Seq<u8>,
) -> Seq<Step> {
    if block_size == 0 {
        Seq::empty()
    } else {
        scan(blocks, block_size, source, 0, Seq::empty())
    }
}

/// Whether a copy of `len` bytes from block `block_index` stays inside a basis of
/// `basis_len` bytes. An empty copy needs only a start that fits in 64 bits.
pub open spec fn copy_fits(
    block_index: usize,
    len: usize,
    block_size: usize,
    basis_len: int,
) -> bool {
    &&& block_index * block_size <= u64::MAX
    &&& len == 0 || block_index * block_size + len <= basis_len
}

/// What `steps` rebuild from `basis`, or the block of the first copy that does
/// not fit.
pub open spec fn replayed(steps: Seq<Step>, block_size: usize, basis: Seq<u8>) -> Result<
    Seq<u8>,
    usize,
>
    decreases steps.len(),
{
    if steps.len() == 0 {
        Ok(Seq::empty())
    } else {
        match steps[0] {
            Step::Literal(bytes) => match replayed(steps.drop_first(), block_size, basis) {
                Ok(rest) => Ok(bytes + rest),
                Err(block_index) => Err(block_index),
            },
            Step::Copy { block_index, len } => if !copy_fits(
                block_index,
                len,
                block_size,
                basis.len() as int,
            ) {
                Err(block_index)
            } else {
                match replayed(steps.drop_first(), block_size, basis) {
                    Ok(rest) => Ok(copied(block_index, len, block_size, basis) + rest),
                    Err(failed) => Err(failed),
                }
            },
        }
    }
}

/// The bytes that a copy which fits takes from `basis`.
pub open spec fn copied(block_index: usize, len: usize, block_size: usize, basis: Seq<u8>) -> Seq<
    u8,
> {
    if len == 0 {
        Seq::empty()
    } else {
        basis.subrange(block_index * block_size, block_index * block_size + len)
    }
}

/// What there is of a copy that does not fit: the basis from its start on, if it
/// starts inside.
pub open spec fn available(block_index: usize, block_size: usize, basis: Seq<u8>) -> Seq<u8> {
    let start = block_index * block_size;
    if start <= u64::MAX && start < basis.len() {
        basis.skip(start)
    } else {
        Seq::empty()
    }
}

/// What is written when `steps` are replayed one by one: the bytes of each, up to the
/// first copy that does not fit, and what there is of that one.
pub open spec fn output(steps: Seq<Step>, block_size: usize, basis: Seq<u8>) -> Seq<u8>
    decreases steps.len(),
{
    if steps.len() == 0 {
        Seq::empty()
    } else {
        match steps[0] {
            Step::Literal(bytes) => bytes + output(steps.drop_first(), block_size, basis),
            Step::Copy { block_index, len } => if copy_fits(
                block_index,
                len,
                block_size,
                basis.len() as int,
            ) {
                copied(block_index, len, block_size, basis) + output(
                    steps.drop_first(),
                    block_size,
                    basis,
                )
            } else {
                available(block_index, block_size, basis)
            },
        }
    }
}

/// One shared block size for two files: the one that suits the smaller.
pub fn choose_block_size(source_len: u64, destination_len: u64) -> (size: usize)
    ensures
        size == crate::block::block_size_for(
            crate::block::smaller_of(source_len as int, destination_len as int),
        ),
        size <= crate::block::block_size_for(source_len as int),
        size <= crate::block::block_size_for(destination_len as int),
{
    proof {
        crate::block::lemma_peers_agree_on_the_block_size(
            source_len as int,
            destination_len as int,
        );
    }
    let smaller: u64 = if source_len <= destination_len {
        source_len
    } else {
        destination_len
    };
    individual_block_size(smaller)
}

/// A number of blocks that covers a length, where one less would not, is the number
/// of blocks.
pub(crate) proof fn lemma_block_count_found(len: int, block_size: int, count: int)
    requires
        block_size > 0,
        count >= 0,
        len <= count * block_size,
        (count - 1) * block_size < len || (count == 0 && len == 0),
    ensures
        count == block_count(len, block_size),
{
    let rest = len + block_size - 1 - count * block_size;
    assert((count - 1) * block_size == count * block_size - block_size) by (nonlinear_arith);
    assert(count * block_size == block_size * count) by (nonlinear_arith);
    if count == 0 {
        assert(count * block_size == 0);
    }
    vstd::arithmetic::div_mod::lemma_fundamental_div_mod_converse(
        len + block_size - 1,
        block_size,
        count,
        rest,
    );
}

/// The signatures of `basis`, cut into blocks of `block_size` bytes. The last
/// block may be short. Blocks of no size give an empty table.
pub fn signatures(basis: &[u8], block_size: usize) -> (table: SignatureTable)
    ensures
        table.spec_block_size() == block_size,
        describes(table.spec_blocks(), basis@, block_size as int),
{
    let mut table = SignatureTable::empty(block_size);
    if block_size == 0 {
        return table;
    }
    let mut offset: usize = 0;
    while offset < basis.len()
        invariant
            block_size > 0,
            offset <= basis@.len(),
            table.spec_block_size() == block_size,
            offset < basis@.len() ==> offset == table.spec_blocks().len() * block_size,
            offset <= table.spec_blocks().len() * block_size,
            (table.spec_blocks().len() - 1) * block_size < offset || (table.spec_blocks().len()
                == 0 && offset == 0),
            forall|k: int|
                0 <= k < table.spec_blocks().len() ==> signs(
                    #[trigger] table.spec_blocks()[k],
                    block_at(basis@, block_size as int, k),
                    k,
                ),
        decreases basis.len() - offset,
    {
        let ghost before = table.spec_blocks();
        let end: usize = if basis.len() - offset < block_size {
            basis.len()
        } else {
            offset + block_size
        };
        table = table.with_block(slice_subrange(basis, offset, end));
        proof {
            let count = before.len() as int;
            assert(block_at(basis@, block_size as int, count) =~= basis@.subrange(
                offset as int,
                end as int,
            ));
            assert((count + 1) * block_size == count * block_size + block_size)
                by (nonlinear_arith);
            assert forall|k: int| 0 <= k < table.spec_blocks().len() implies signs(
                #[trigger] table.spec_blocks()[k],
                block_at(basis@, block_size as int, k),
                k,
            ) by {
                if k < count {
                    assert(before[k] == table.spec_blocks()[k]);
                }
            }
        }
        offset = end;
    }
    proof {
        lemma_block_count_found(
            basis@.len() as int,
            block_size as int,
            table.spec_blocks().len() as int,
        );
    }
    table
}

/// A window of at most one block, kept in a ring of one block's size.
///
/// While the window fills, its bytes stand at the front of the ring. Once it is
/// full, sliding it by one byte overwrites the slot of the byte that leaves.
pub struct Window {
    bytes: Vec<u8>,
    head: usize,
    len: usize,
}

impl View for Window {
    type V = Seq<u8>;

    closed spec fn view(&self) -> Seq<u8> {
        let first = if self.len <= self.bytes@.len() - self.head {
            self.len as int
        } else {
            self.bytes@.len() - self.head
        };
        self.bytes@.subrange(self.head as int, self.head + first) + self.bytes@.subrange(
            0,
            self.len - first,
        )
    }
}

impl Window {
    pub closed spec fn wf(&self) -> bool {
        &&& self.len <= self.bytes@.len()
        &&& self.head < self.bytes@.len() || self.head == 0
        &&& self.len < self.bytes@.len() ==> self.head == 0
    }

    /// How many bytes the window holds when it is full.
    pub closed spec fn capacity(&self) -> nat {
        self.bytes@.len()
    }

    /// An empty window.
    pub fn new(size: usize) -> (window: Self)
        ensures
            window.wf(),
            window.capacity() == size,
            window@ == Seq::<u8>::empty(),
    {
        let mut bytes: Vec<u8> = Vec::new();
        bytes.resize(size, 0);
        Window { bytes, head: 0, len: 0 }
    }

    /// How many bytes the window holds.
    pub fn len(&self) -> (len: usize)
        requires
            self.wf(),
        ensures
            len == self@.len(),
            len <= self.capacity(),
    {
        self.len
    }

    /// Whether the window holds nothing.
    pub fn is_empty(&self) -> (empty: bool)
        requires
            self.wf(),
        ensures
            empty == (self@.len() == 0),
    {
        self.len == 0
    }

    /// Drops what the window holds.
    pub fn clear(&mut self)
        requires
            old(self).wf(),
        ensures
            final(self).wf(),
            final(self).capacity() == old(self).capacity(),
            final(self)@ == Seq::<u8>::empty(),
    {
        self.head = 0;
        self.len = 0;
        assert(self@ =~= Seq::<u8>::empty());
    }

    /// Adds a byte to a window that is not full.
    pub fn push(&mut self, byte: u8)
        requires
            old(self).wf(),
            old(self)@.len() < old(self).capacity(),
        ensures
            final(self).wf(),
            final(self).capacity() == old(self).capacity(),
            final(self)@ == old(self)@.push(byte),
    {
        let position: usize = self.len;
        assert(position < self.bytes.len());
        self.bytes.set(position, byte);
        self.len = position + 1;
        assert(self@ =~= old(self)@.push(byte));
    }

    /// Moves a full window on by one byte, and gives the byte that leaves. A
    /// window that is empty or not full stays as it is.
    pub fn slide(&mut self, incoming: u8) -> (outgoing: Option<u8>)
        requires
            old(self).wf(),
        ensures
            final(self).wf(),
            final(self).capacity() == old(self).capacity(),
            ({
                let full = old(self)@.len() == old(self).capacity() && old(self)@.len() > 0;
                &&& outgoing == if full {
                    Some(old(self)@[0])
                } else {
                    None
                }
                &&& final(self)@ == if full {
                    old(self)@.drop_first().push(incoming)
                } else {
                    old(self)@
                }
            }),
    {
        if self.len != self.bytes.len() || self.len == 0 {
            return None;
        }
        let position: usize = self.head;
        let outgoing: u8 = self.bytes[position];
        self.bytes.set(position, incoming);
        self.head = if position + 1 == self.bytes.len() {
            0
        } else {
            position + 1
        };
        assert(self@ =~= old(self)@.drop_first().push(incoming));
        Some(outgoing)
    }

    /// The window's bytes, as the two runs in which the ring holds them.
    pub fn as_slices(&self) -> (runs: (&[u8], &[u8]))
        requires
            self.wf(),
        ensures
            runs.0@ + runs.1@ == self@,
    {
        let bytes = self.bytes.as_slice();
        let first: usize = if self.len <= bytes.len() - self.head {
            self.len
        } else {
            bytes.len() - self.head
        };
        (
            slice_subrange(bytes, self.head, self.head + first),
            slice_subrange(bytes, 0, self.len - first),
        )
    }

    /// The window's bytes in their order.
    pub fn to_vec(&self) -> (bytes: Vec<u8>)
        requires
            self.wf(),
        ensures
            bytes@ == self@,
    {
        let (head, tail) = self.as_slices();
        let mut bytes: Vec<u8> = Vec::new();
        bytes.extend_from_slice(head);
        bytes.extend_from_slice(tail);
        assert(bytes@ =~= head@ + tail@);
        bytes
    }
}

/// The rolling checksum of a window.
pub fn weak_checksum_window(window: &Window) -> (checksum: u32)
    requires
        window.wf(),
    ensures
        checksum == crate::checksum::weak_of(window@),
{
    weak_checksum(window.to_vec().as_slice())
}

/// The strong checksum of a window, taken over its two runs in turn.
pub fn strong_checksum_window(window: &Window) -> (strong: [u8; 32])
    requires
        window.wf(),
    ensures
        strong@ == crate::digest::blake3_of(window@),
{
    let (head, tail) = window.as_slices();
    strong_checksum_parts(head, tail)
}

/// The first block that matches the window, whose rolling checksum is `weak`.
/// The strong checksum is computed only if some block has that one.
fn find_match<'a>(
    signatures: &'a SignatureTable,
    window: &Window,
    weak: u32,
) -> (block: Option<&'a BlockSignature>)
    requires
        window.wf(),
        weak == crate::checksum::weak_of(window@),
    ensures
        match first_match(signatures.spec_blocks(), signatures.spec_block_size(), window@, 0) {
            Some(k) => block == Some(&signatures.spec_blocks()[k]),
            None => block is None,
        },
{
    proof {
        use_type_invariant(signatures);
    }
    let ghost blocks = signatures.blocks@;
    let ghost block_size = signatures.block_size;
    let ghost list = list_at(signatures.by_weak@, weak);
    assert(lists_candidates(list, blocks, block_size, weak));
    let candidates = match signatures.by_weak.get(&weak) {
        Some(candidates) => candidates,
        None => {
            proof {
                lemma_first_match_absent(blocks, block_size, window@, 0);
            }
            return None;
        },
    };
    let strong = strong_checksum_window(window);
    let mut index: usize = 0;
    while index < candidates.len()
        invariant
            index <= candidates@.len(),
            candidates@ == list,
            blocks == signatures.blocks@,
            block_size == signatures.block_size,
            lists_candidates(list, blocks, block_size, weak),
            weak == crate::checksum::weak_of(window@),
            strong@ == crate::digest::blake3_of(window@),
            forall|i: int|
                0 <= i < index ==> !matched(
                    blocks[#[trigger] list[i] as int],
                    block_size,
                    window@,
                ),
        decreases candidates.len() - index,
    {
        let position: usize = candidates[index];
        let block = &signatures.blocks[position];
        if block.weak == weak && bytes_equal(&block.strong, &strong) {
            proof {
                assert forall|k: int| 0 <= k < position implies !matched(
                    #[trigger] blocks[k],
                    block_size,
                    window@,
                ) by {
                    if candidate(blocks[k], block_size, weak) {
                        let i = choose|i: int| 0 <= i < list.len() && list[i] == k as usize;
                        assert(list[index as int] == position);
                        if i >= index {
                            assert(list[index as int] <= list[i]);
                        }
                    }
                }
                lemma_first_match_found(blocks, block_size, window@, 0, position as int);
            }
            return Some(block);
        }
        index = index + 1;
    }
    proof {
        assert(blocks.len() == signatures.blocks.len());
        assert forall|k: int| 0 <= k < blocks.len() implies !matched(
            #[trigger] blocks[k],
            block_size,
            window@,
        ) by {
            if candidate(blocks[k], block_size, weak) {
                let i = choose|i: int| 0 <= i < list.len() && list[i] == k as usize;
                assert(!matched(blocks[list[i] as int], block_size, window@));
            }
        }
        lemma_first_match_absent(blocks, block_size, window@, 0);
    }
    None
}

/// Whether a scan of `consumed` and whatever follows it goes on from `at` with
/// `literal` pending once `done` has been written.
spec fn resumes(
    blocks: Seq<BlockSignature>,
    block_size: usize,
    consumed: Seq<u8>,
    more: Seq<u8>,
    done: Seq<Step>,
    at: int,
    literal: Seq<u8>,
) -> bool {
    scan(blocks, block_size, consumed + more, 0, Seq::empty()) == done + scan(
        blocks,
        block_size,
        consumed + more,
        at,
        literal,
    )
}

/// A scan for copies and literals, fed with the bytes of a source as they come.
///
/// The scanner keeps a window of at most one block. Whenever the window fills it
/// is looked up in the table. A match empties it. Without a match the next byte
/// slides it on, and the byte that leaves joins the pending literal.
pub struct DeltaScanner<'a> {
    signatures: &'a SignatureTable,
    window: Window,
    weak: u32,
    literal: Vec<u8>,
    chunks: Vec<RecipeChunk>,
    consumed: Ghost<Seq<u8>>,
    at: Ghost<int>,
}

impl<'a> DeltaScanner<'a> {
    /// The table that the scan compares with.
    pub closed spec fn table(&self) -> &'a SignatureTable {
        self.signatures
    }

    /// The source bytes seen so far.
    pub closed spec fn consumed(&self) -> Seq<u8> {
        self.consumed@
    }

    /// What holds of a scanner whose window starts at `at`, whether or not the
    /// window has been looked up yet.
    spec fn tracks(&self) -> bool {
        let blocks = self.signatures.spec_blocks();
        let block_size = self.signatures.spec_block_size();
        &&& self.window.wf()
        &&& self.window.capacity() == block_size
        &&& block_size > 0
        &&& 0 <= self.at@ <= self.consumed@.len()
        &&& self.window@ == self.consumed@.skip(self.at@)
        &&& self.window@.len() == block_size ==> self.weak == crate::checksum::weak_of(
            self.window@,
        )
        &&& forall|more: Seq<u8>| #[trigger]
            resumes(
                blocks,
                block_size,
                self.consumed@,
                more,
                steps_of(self.chunks@),
                self.at@,
                self.literal@,
            )
    }

    /// Whether the window is not full, or full and matched by no block.
    spec fn settled(&self) -> bool {
        let blocks = self.signatures.spec_blocks();
        let block_size = self.signatures.spec_block_size();
        self.window@.len() == block_size ==> first_match(
            blocks,
            block_size,
            self.window@,
            0,
        ) is None
    }

    pub closed spec fn wf(&self) -> bool {
        if self.signatures.spec_block_size() == 0 {
            self.chunks@ == Seq::<RecipeChunk>::empty()
        } else {
            self.tracks() && self.settled()
        }
    }

    /// A scanner that has seen nothing.
    pub fn new(signatures: &'a SignatureTable) -> (scanner: Self)
        ensures
            scanner.wf(),
            scanner.table() == signatures,
            scanner.consumed() == Seq::<u8>::empty(),
    {
        let scanner = DeltaScanner {
            signatures,
            window: Window::new(signatures.block_size()),
            weak: 0,
            literal: Vec::new(),
            chunks: Vec::new(),
            consumed: Ghost(Seq::empty()),
            at: Ghost(0),
        };
        proof {
            let blocks = signatures.spec_blocks();
            let block_size = signatures.spec_block_size();
            assert(scanner.window@ =~= scanner.consumed@.skip(0));
            assert(steps_of(scanner.chunks@) =~= Seq::<Step>::empty());
            assert(scanner.literal@ =~= Seq::<u8>::empty());
            assert forall|more: Seq<u8>| #[trigger]
                resumes(
                    blocks,
                    block_size,
                    scanner.consumed@,
                    more,
                    steps_of(scanner.chunks@),
                    0,
                    scanner.literal@,
                ) by {
                let rest = scan(blocks, block_size, scanner.consumed@ + more, 0, Seq::empty());
                assert(Seq::<Step>::empty() + rest =~= rest);
            }
        }
        scanner
    }

    /// Looks a full window up, and turns it into a copy if some block matches.
    fn settle(&mut self)
        requires
            old(self).tracks(),
        ensures
            final(self).tracks(),
            final(self).settled(),
            final(self).signatures == old(self).signatures,
            final(self).consumed@ == old(self).consumed@,
    {
        if self.window.len() < self.signatures.block_size() {
            return;
        }
        let block = match find_match(self.signatures, &self.window, self.weak) {
            Some(block) => block,
            None => {
                return;
            },
        };
        let (block_index, len): (usize, usize) = (block.block_index, block.len);
        let ghost before = *self;
        let ghost blocks = self.signatures.spec_blocks();
        let ghost block_size = self.signatures.spec_block_size();
        if self.literal.len() > 0 {
            let mut literal: Vec<u8> = Vec::new();
            std::mem::swap(&mut literal, &mut self.literal);
            self.chunks.push(RecipeChunk::Literal(literal));
        }
        self.chunks.push(RecipeChunk::Copy { block_index, len });
        self.window.clear();
        self.at = Ghost(self.consumed@.len() as int);
        proof {
            let copy = seq![Step::Copy { block_index, len }];
            assert(self.literal@ =~= Seq::<u8>::empty());
            assert(self.window@ =~= self.consumed@.skip(self.at@));
            assert(steps_of(self.chunks@) =~= steps_of(before.chunks@) + flushed(before.literal@)
                + copy);
            assert forall|more: Seq<u8>| #[trigger]
                resumes(
                    blocks,
                    block_size,
                    self.consumed@,
                    more,
                    steps_of(self.chunks@),
                    self.at@,
                    self.literal@,
                ) by {
                assert(resumes(
                    blocks,
                    block_size,
                    before.consumed@,
                    more,
                    steps_of(before.chunks@),
                    before.at@,
                    before.literal@,
                ));
                let source = self.consumed@ + more;
                assert(source.subrange(before.at@, before.at@ + block_size) =~= before.window@);
                let rest = scan(blocks, block_size, source, self.at@, Seq::empty());
                assert(steps_of(before.chunks@) + (flushed(before.literal@) + copy + rest)
                    =~= steps_of(before.chunks@) + flushed(before.literal@) + copy + rest);
            }
        }
    }

    /// Takes the next byte of the source.
    pub fn push(&mut self, byte: u8)
        requires
            old(self).wf(),
        ensures
            final(self).wf(),
            final(self).table() == old(self).table(),
            final(self).consumed() == old(self).consumed().push(byte),
    {
        let ghost before = *self;
        let ghost blocks = self.signatures.spec_blocks();
        let block_size: usize = self.signatures.block_size();
        if block_size == 0 {
            self.consumed = Ghost(self.consumed@.push(byte));
            return;
        }
        if self.window.len() < block_size {
            self.window.push(byte);
            if self.window.len() == block_size {
                self.weak = weak_checksum_window(&self.window);
            }
        } else {
            proof {
                crate::checksum::lemma_rolling_matches_recomputation(before.window@, byte);
            }
            match self.window.slide(byte) {
                Some(outgoing) => {
                    self.literal.push(outgoing);
                    self.weak = roll_weak_checksum(self.weak, outgoing, byte, block_size);
                },
                None => {},
            }
            self.at = Ghost(self.at@ + 1);
        }
        self.consumed = Ghost(self.consumed@.push(byte));
        proof {
            assert(self.window@ =~= self.consumed@.skip(self.at@));
            assert forall|more: Seq<u8>| #[trigger]
                resumes(
                    blocks,
                    block_size,
                    self.consumed@,
                    more,
                    steps_of(self.chunks@),
                    self.at@,
                    self.literal@,
                ) by {
                let earlier = seq![byte] + more;
                assert(resumes(
                    blocks,
                    block_size,
                    before.consumed@,
                    earlier,
                    steps_of(before.chunks@),
                    before.at@,
                    before.literal@,
                ));
                let source = self.consumed@ + more;
                assert(source =~= before.consumed@ + earlier);
                if before.window@.len() == block_size {
                    assert(source.subrange(before.at@, before.at@ + block_size)
                        =~= before.window@);
                    assert(source[before.at@] == before.window@[0]);
                }
            }
        }
        self.settle();
    }

    /// Takes the next bytes of the source.
    pub fn push_all(&mut self, bytes: &[u8])
        requires
            old(self).wf(),
        ensures
            final(self).wf(),
            final(self).table() == old(self).table(),
            final(self).consumed() == old(self).consumed() + bytes@,
    {
        let mut index: usize = 0;
        assert(self.consumed() =~= old(self).consumed() + bytes@.take(0));
        while index < bytes.len()
            invariant
                index <= bytes@.len(),
                self.wf(),
                self.table() == old(self).table(),
                self.consumed() == old(self).consumed() + bytes@.take(index as int),
            decreases bytes.len() - index,
        {
            self.push(bytes[index]);
            index = index + 1;
            assert(self.consumed() =~= old(self).consumed() + bytes@.take(index as int));
        }
        assert(bytes@.take(index as int) =~= bytes@);
    }

    /// The recipe for the source bytes seen.
    pub fn finish(self) -> (recipe: Recipe)
        requires
            self.wf(),
        ensures
            recipe.block_size == self.table().spec_block_size(),
            steps_of(recipe.chunks@) == recipe_steps(
                self.table().spec_blocks(),
                self.table().spec_block_size(),
                self.consumed(),
            ),
    {
        let ghost blocks = self.signatures.spec_blocks();
        let ghost done = steps_of(self.chunks@);
        let ghost pending = self.literal@;
        let ghost source = self.consumed@;
        let ghost at = self.at@;
        let ghost window = self.window@;
        let block_size: usize = self.signatures.block_size();
        let mut chunks = self.chunks;
        if block_size == 0 {
            assert(steps_of(chunks@) =~= Seq::<Step>::empty());
            return Recipe { block_size, chunks };
        }
        let mut literal = self.literal;
        let mut rest = self.window.to_vec();
        literal.append(&mut rest);
        proof {
            assert(resumes(blocks, block_size, source, Seq::empty(), done, at, pending));
            assert(source + Seq::<u8>::empty() =~= source);
            if window.len() == block_size {
                assert(source.subrange(at, at + block_size) =~= window);
                assert(pending.push(source[at]) + source.skip(at + 1) =~= pending + window);
                assert(scan(blocks, block_size, source, at + 1, pending.push(source[at]))
                    == flushed(pending + window));
            }
            assert(scan(blocks, block_size, source, at, pending) == flushed(pending + window));
            assert(literal@ == pending + window);
        }
        if literal.len() > 0 {
            chunks.push(RecipeChunk::Literal(literal));
        }
        assert(steps_of(chunks@) =~= done + flushed(pending + window));
        Recipe { block_size, chunks }
    }
}

/// The recipe that rebuilds `source` from the basis that `signatures` describe.
pub fn delta(source: &[u8], signatures: &SignatureTable) -> (recipe: Recipe)
    ensures
        recipe.block_size == signatures.spec_block_size(),
        steps_of(recipe.chunks@) == recipe_steps(
            signatures.spec_blocks(),
            signatures.spec_block_size(),
            source@,
        ),
{
    let mut scanner = DeltaScanner::new(signatures);
    scanner.push_all(source);
    assert(Seq::<u8>::empty() + source@ =~= source@);
    scanner.finish()
}

/// Where in the basis a copy starts.
pub fn copy_start(block_index: usize, block_size: usize) -> (start: Result<u64, StrategyError>)
    ensures
        start == if block_index * block_size <= u64::MAX {
            Ok::<u64, StrategyError>((block_index * block_size) as u64)
        } else {
            Err(StrategyError::InvalidBlockReference { block_index })
        },
{
    match (block_index as u64).checked_mul(block_size as u64) {
        Some(start) => Ok(start),
        None => Err(StrategyError::InvalidBlockReference { block_index }),
    }
}

/// Whether a replay ends as the replay of its rest does.
spec fn ends_alike(whole: Result<Seq<u8>, usize>, rest: Result<Seq<u8>, usize>) -> bool {
    match rest {
        Ok(_) => whole is Ok,
        Err(block_index) => whole == Err::<Seq<u8>, usize>(block_index),
    }
}

/// Writes what `recipe` rebuilds from the basis behind what `out` holds: literals as
/// they stand, and copies out of the basis. A copy that reaches past the end of the
/// basis is refused. By then everything before it has been written, and as much of it
/// as there is.
pub fn apply_into(recipe: &Recipe, basis: &[u8], out: &mut Vec<u8>) -> (outcome: Result<
    (),
    StrategyError,
>)
    ensures
        final(out)@ == old(out)@ + output(steps_of(recipe.chunks@), recipe.block_size, basis@),
        match replayed(steps_of(recipe.chunks@), recipe.block_size, basis@) {
            Ok(_) => outcome is Ok,
            Err(block_index) => outcome == Err::<(), StrategyError>(
                StrategyError::InvalidBlockReference { block_index },
            ),
        },
{
    let ghost steps = steps_of(recipe.chunks@);
    let ghost all = output(steps, recipe.block_size, basis@);
    let mut index: usize = 0;
    assert(steps.skip(0) =~= steps);
    while index < recipe.chunks.len()
        invariant
            index <= recipe.chunks@.len(),
            steps == steps_of(recipe.chunks@),
            all == output(steps, recipe.block_size, basis@),
            out@ + output(steps.skip(index as int), recipe.block_size, basis@) == old(out)@ + all,
            ends_alike(
                replayed(steps, recipe.block_size, basis@),
                replayed(steps.skip(index as int), recipe.block_size, basis@),
            ),
        decreases recipe.chunks.len() - index,
    {
        let ghost rest = steps.skip(index as int);
        let ghost earlier = out@;
        let ghost tail = output(rest.drop_first(), recipe.block_size, basis@);
        assert(rest.drop_first() =~= steps.skip(index + 1));
        assert(rest[0] == recipe.chunks@[index as int]@);
        match &recipe.chunks[index] {
            RecipeChunk::Literal(bytes) => {
                out.extend_from_slice(bytes.as_slice());
                assert(out@ =~= earlier + bytes@);
                assert(out@ + tail =~= earlier + (bytes@ + tail));
            },
            RecipeChunk::Copy { block_index, len } => {
                let block_index: usize = *block_index;
                let len: usize = *len;
                let start: u64 = match copy_start(block_index, recipe.block_size) {
                    Ok(start) => start,
                    Err(error) => {
                        assert(earlier + Seq::<u8>::empty() =~= earlier);
                        return Err(error);
                    },
                };
                if len > 0 {
                    if len > basis.len() || start > (basis.len() - len) as u64 {
                        let ghost part = available(block_index, recipe.block_size, basis@);
                        if start < basis.len() as u64 {
                            out.extend_from_slice(
                                slice_subrange(basis, start as usize, basis.len()),
                            );
                        }
                        assert(out@ =~= earlier + part);
                        return Err(StrategyError::InvalidBlockReference { block_index });
                    }
                    let first: usize = start as usize;
                    out.extend_from_slice(slice_subrange(basis, first, first + len));
                }
                let ghost bytes = copied(block_index, len, recipe.block_size, basis@);
                assert(out@ =~= earlier + bytes);
                assert(out@ + tail =~= earlier + (bytes + tail));
            },
        }
        index = index + 1;
    }
    assert(steps.skip(index as int) =~= Seq::<Step>::empty());
    assert(out@ + Seq::<u8>::empty() =~= out@);
    Ok(())
}

/// Rebuilds a source from `recipe` and the basis: literals as they stand, and
/// copies out of the basis. A copy that reaches past its end is refused.
pub fn apply(recipe: &Recipe, basis: &[u8]) -> (rebuilt: Result<Vec<u8>, StrategyError>)
    ensures
        match replayed(steps_of(recipe.chunks@), recipe.block_size, basis@) {
            Ok(bytes) => rebuilt matches Ok(written) && written@ == bytes,
            Err(block_index) => rebuilt == Err::<Vec<u8>, StrategyError>(
                StrategyError::InvalidBlockReference { block_index },
            ),
        },
{
    let mut written: Vec<u8> = Vec::new();
    match apply_into(recipe, basis, &mut written) {
        Ok(()) => {
            proof {
                let steps = steps_of(recipe.chunks@);
                lemma_output_of_a_replay(steps, recipe.block_size, basis@);
                assert(written@ =~= output(steps, recipe.block_size, basis@));
            }
            Ok(written)
        },
        Err(error) => Err(error),
    }
}

/// A replay that succeeds has written what it rebuilds.
pub proof fn lemma_output_of_a_replay(steps: Seq<Step>, block_size: usize, basis: Seq<u8>)
    ensures
        replayed(steps, block_size, basis) matches Ok(bytes) ==> output(steps, block_size, basis)
            == bytes,
    decreases steps.len(),
{
    if steps.len() > 0 {
        lemma_output_of_a_replay(steps.drop_first(), block_size, basis);
    }
}

/// A copy that does not fit is refused once all that stands before it has been
/// written. Behind that stands what there is of the copy, and nothing of what follows.
pub proof fn lemma_output_before_a_refused_copy(
    before: Seq<Step>,
    block_index: usize,
    len: usize,
    after: Seq<Step>,
    block_size: usize,
    basis: Seq<u8>,
)
    requires
        replayed(before, block_size, basis) is Ok,
        !copy_fits(block_index, len, block_size, basis.len() as int),
    ensures
        ({
            let steps = before + seq![Step::Copy { block_index, len }] + after;
            &&& replayed(steps, block_size, basis) == Err::<Seq<u8>, usize>(block_index)
            &&& output(steps, block_size, basis) == replayed(before, block_size, basis)->Ok_0
                + available(block_index, block_size, basis)
        }),
    decreases before.len(),
{
    let copy = Step::Copy { block_index, len };
    let steps = before + seq![copy] + after;
    let part = available(block_index, block_size, basis);
    if before.len() == 0 {
        assert(steps[0] == copy);
        assert(Seq::<u8>::empty() + part =~= part);
    } else {
        let rest = before.drop_first();
        assert(steps.drop_first() =~= rest + seq![copy] + after);
        assert(steps[0] == before[0]);
        lemma_output_before_a_refused_copy(rest, block_index, len, after, block_size, basis);
        let tail = replayed(rest, block_size, basis)->Ok_0;
        match before[0] {
            Step::Literal(bytes) => {
                assert(bytes + (tail + part) =~= bytes + tail + part);
            },
            Step::Copy { block_index, len } => {
                let bytes = copied(block_index, len, block_size, basis);
                assert(bytes + (tail + part) =~= bytes + tail + part);
            },
        }
    }
}

/// The outcome of a replay of which `written` is already there.
spec fn after_writing(written: Seq<u8>, rest: Result<Seq<u8>, usize>) -> Result<Seq<u8>, usize> {
    match rest {
        Ok(bytes) => Ok(written + bytes),
        Err(block_index) => Err(block_index),
    }
}

/// Whether no block of `basis` shares both checksums with a window of `source`
/// that holds other bytes.
pub open spec fn collision_free(basis: Seq<u8>, source: Seq<u8>, block_size: usize) -> bool {
    forall|k: int, at: int|
        #![trigger block_at(basis, block_size as int, k), source.subrange(at, at + block_size)]
        0 <= k < block_count(basis.len() as int, block_size as int) && 0 <= at && at + block_size
            <= source.len() ==> {
            let block = block_at(basis, block_size as int, k);
            let window = source.subrange(at, at + block_size);
            crate::checksum::weak_of(block) == crate::checksum::weak_of(window)
                && crate::digest::blake3_of(block) == crate::digest::blake3_of(window)
                && block.len() == window.len() ==> block == window
        }
}

proof fn lemma_replay_flushed(
    literal: Seq<u8>,
    rest: Seq<Step>,
    block_size: usize,
    basis: Seq<u8>,
)
    ensures
        replayed(flushed(literal) + rest, block_size, basis) == after_writing(
            literal,
            replayed(rest, block_size, basis),
        ),
{
    let steps = flushed(literal) + rest;
    if literal.len() == 0 {
        assert(steps =~= rest);
        let tail = replayed(rest, block_size, basis);
        assert(tail is Ok ==> literal + tail->Ok_0 =~= tail->Ok_0);
    } else {
        assert(steps.drop_first() =~= rest);
        assert(steps[0] == Step::Literal(literal));
    }
}

proof fn lemma_scan_rebuilds(
    blocks: Seq<BlockSignature>,
    block_size: usize,
    basis: Seq<u8>,
    source: Seq<u8>,
    at: int,
    literal: Seq<u8>,
)
    requires
        block_size > 0,
        basis.len() <= u64::MAX,
        describes(blocks, basis, block_size as int),
        collision_free(basis, source, block_size),
        0 <= at <= source.len(),
    ensures
        replayed(scan(blocks, block_size, source, at, literal), block_size, basis) == Ok::<
            Seq<u8>,
            usize,
        >(literal + source.skip(at)),
    decreases source.len() - at,
{
    if at + block_size > source.len() {
        let rest = literal + source.skip(at);
        assert(flushed(rest) + Seq::<Step>::empty() =~= flushed(rest));
        lemma_replay_flushed(rest, Seq::empty(), block_size, basis);
        assert(rest + Seq::<u8>::empty() =~= rest);
    } else {
        let window = source.subrange(at, at + block_size);
        lemma_first_match_matches(blocks, block_size, window, 0);
        match first_match(blocks, block_size, window, 0) {
            Some(k) => {
                let block = block_at(basis, block_size as int, k);
                assert(signs(blocks[k], block, k));
                assert(block == window);
                let copy = Step::Copy { block_index: blocks[k].block_index, len: blocks[k].len };
                let after = scan(blocks, block_size, source, at + block_size, Seq::empty());
                lemma_scan_rebuilds(
                    blocks,
                    block_size,
                    basis,
                    source,
                    at + block_size,
                    Seq::empty(),
                );
                assert(Seq::<u8>::empty() + source.skip(at + block_size) =~= source.skip(
                    at + block_size,
                ));
                let steps = seq![copy] + after;
                assert(flushed(literal) + seq![copy] + after =~= flushed(literal) + steps);
                assert(steps.drop_first() =~= after);
                lemma_replay_flushed(literal, steps, block_size, basis);
                lemma_block_inside(basis.len() as int, block_size as int, k);
                assert(k * block_size + block_size <= basis.len());
                assert(copied(k as usize, block_size, block_size, basis) =~= window);
                assert(literal + (window + source.skip(at + block_size)) =~= literal
                    + source.skip(at));
            },
            None => {
                lemma_scan_rebuilds(
                    blocks,
                    block_size,
                    basis,
                    source,
                    at + 1,
                    literal.push(source[at]),
                );
                assert(literal.push(source[at]) + source.skip(at + 1) =~= literal + source.skip(
                    at,
                ));
            },
        }
    }
}

/// Every block starts inside its basis.
proof fn lemma_block_inside(len: int, block_size: int, index: int)
    requires
        block_size > 0,
        len >= 0,
        0 <= index < block_count(len, block_size),
    ensures
        0 <= index * block_size < len,
{
    let count = block_count(len, block_size);
    vstd::arithmetic::div_mod::lemma_fundamental_div_mod(len + block_size - 1, block_size);
    assert(block_size * count <= len + block_size - 1);
    assert(index * block_size + block_size <= block_size * count) by (nonlinear_arith)
        requires
            block_size > 0,
            index + 1 <= count,
    ;
    assert(0 <= index * block_size) by (nonlinear_arith)
        requires
            block_size > 0,
            index >= 0,
    ;
}

/// Replaying the recipe for a source against its basis gives the source back,
/// as long as no two different blocks share both checksums.
pub proof fn lemma_recipe_rebuilds_the_source(
    blocks: Seq<BlockSignature>,
    block_size: usize,
    basis: Seq<u8>,
    source: Seq<u8>,
)
    requires
        block_size > 0,
        basis.len() <= u64::MAX,
        describes(blocks, basis, block_size as int),
        collision_free(basis, source, block_size),
    ensures
        replayed(recipe_steps(blocks, block_size, source), block_size, basis) == Ok::<
            Seq<u8>,
            usize,
        >(source),
{
    lemma_scan_rebuilds(blocks, block_size, basis, source, 0, Seq::empty());
    assert(Seq::<u8>::empty() + source.skip(0) =~= source);
}

/// A source shorter than one block becomes one literal, or no instruction at all
/// when it is empty.
pub proof fn lemma_short_source_is_one_literal(
    blocks: Seq<BlockSignature>,
    block_size: usize,
    source: Seq<u8>,
)
    requires
        source.len() < block_size,
    ensures
        recipe_steps(blocks, block_size, source) == flushed(source),
{
    assert(Seq::<u8>::empty() + source.skip(0) =~= source);
}

proof fn lemma_identical_from(
    blocks: Seq<BlockSignature>,
    block_size: usize,
    basis: Seq<u8>,
    index: int,
)
    requires
        block_size > 0,
        describes(blocks, basis, block_size as int),
        0 <= index,
        index * block_size <= basis.len(),
    ensures
        ({
            let steps = scan(blocks, block_size, basis, index * block_size, Seq::empty());
            let full = basis.len() as int / block_size as int - index;
            let tail = basis.skip((basis.len() as int / block_size as int) * block_size);
            &&& steps.len() == full + flushed(tail).len()
            &&& steps.skip(full) == flushed(tail)
            &&& forall|i: int|
                0 <= i < full ==> (#[trigger] steps[i] matches Step::Copy { len, .. } && len
                    == block_size)
        }),
    decreases basis.len() - index * block_size,
{
    let at = index * block_size;
    let whole = basis.len() as int / block_size as int;
    let steps = scan(blocks, block_size, basis, at, Seq::empty());
    let tail = basis.skip(whole * block_size);
    vstd::arithmetic::div_mod::lemma_fundamental_div_mod(basis.len() as int, block_size as int);
    assert(whole * block_size == block_size * whole) by (nonlinear_arith);
    assert((index + 1) * block_size == at + block_size) by (nonlinear_arith)
        requires
            at == index * block_size,
    ;
    assert(0 <= at) by (nonlinear_arith)
        requires
            at == index * block_size,
            index >= 0,
            block_size > 0,
    ;
    if at + block_size > basis.len() {
        vstd::arithmetic::div_mod::lemma_fundamental_div_mod_converse(
            basis.len() as int,
            block_size as int,
            index,
            basis.len() - at,
        );
        assert(whole == index);
        assert(Seq::<u8>::empty() + basis.skip(at) =~= tail);
        assert(steps =~= flushed(tail));
        assert(steps.skip(0) =~= steps);
    } else {
        let window = basis.subrange(at, at + block_size);
        assert(block_at(basis, block_size as int, index) =~= window);
        assert(index < whole) by (nonlinear_arith)
            requires
                block_size > 0,
                index * block_size + block_size <= basis.len(),
                basis.len() == block_size * whole + basis.len() as int % block_size as int,
                (basis.len() as int % block_size as int) < block_size,
        ;
        assert(whole <= block_count(basis.len() as int, block_size as int)) by {
            vstd::arithmetic::div_mod::lemma_div_is_ordered(
                basis.len() as int,
                basis.len() + block_size - 1,
                block_size as int,
            );
        }
        assert(signs(blocks[index], window, index));
        assert(matched(blocks[index], block_size, window));
        if first_match(blocks, block_size, window, 0) is None {
            lemma_absent_means_unmatched(blocks, block_size, window, 0, index);
        }
        lemma_first_match_matches(blocks, block_size, window, 0);
        let k = first_match(blocks, block_size, window, 0)->0;
        let copy = Step::Copy { block_index: blocks[k].block_index, len: blocks[k].len };
        let after = scan(blocks, block_size, basis, at + block_size, Seq::empty());
        lemma_identical_from(blocks, block_size, basis, index + 1);
        assert(steps =~= seq![copy] + after);
        let full = whole - index;
        assert(steps.skip(full) =~= after.skip(full - 1));
        assert forall|i: int| 0 <= i < full implies (#[trigger] steps[i] matches Step::Copy {
            len,
            ..
        } && len == block_size) by {
            if i > 0 {
                assert(steps[i] == after[i - 1]);
            }
        }
    }
}

proof fn lemma_absent_means_unmatched(
    blocks: Seq<BlockSignature>,
    block_size: usize,
    window: Seq<u8>,
    from: int,
    index: int,
)
    requires
        0 <= from <= index < blocks.len(),
        first_match(blocks, block_size, window, from) is None,
    ensures
        !matched(blocks[index], block_size, window),
    decreases index - from,
{
    if from < index {
        lemma_absent_means_unmatched(blocks, block_size, window, from + 1, index);
    }
}

/// A source identical to its basis becomes one copy for each full block, and one
/// literal for what is left of a last short block.
pub proof fn lemma_identical_source_is_copied(
    blocks: Seq<BlockSignature>,
    block_size: usize,
    basis: Seq<u8>,
)
    requires
        block_size > 0,
        describes(blocks, basis, block_size as int),
    ensures
        ({
            let steps = recipe_steps(blocks, block_size, basis);
            let full = basis.len() as int / block_size as int;
            let tail = basis.skip(full * block_size);
            &&& steps.len() == full + flushed(tail).len()
            &&& steps.skip(full) == flushed(tail)
            &&& forall|i: int|
                0 <= i < full ==> (#[trigger] steps[i] matches Step::Copy { len, .. } && len
                    == block_size)
        }),
{
    assert(0 * block_size == 0);
    lemma_identical_from(blocks, block_size, basis, 0);
}

/// How many bytes of the source an instruction stands for.
pub open spec fn span_of(step: Step) -> int {
    match step {
        Step::Literal(bytes) => bytes.len() as int,
        Step::Copy { len, .. } => len as int,
    }
}

/// Where in the source instruction `k` stands: behind all that the earlier ones stand
/// for.
pub open spec fn position_of(steps: Seq<Step>, k: int) -> int
    decreases steps.len(),
{
    if k <= 0 || steps.len() == 0 {
        0
    } else {
        span_of(steps[0]) + position_of(steps.drop_first(), k - 1)
    }
}

/// Whether `signature` has the length and both checksums of `bytes`.
pub open spec fn has_checksums_of(signature: BlockSignature, bytes: Seq<u8>) -> bool {
    &&& signature.len == bytes.len()
    &&& signature.weak == crate::checksum::weak_of(bytes)
    &&& signature.strong@ == crate::digest::blake3_of(bytes)
}

/// Whether `step`, standing at `at` with `next` behind it, is what the table allows
/// there.
spec fn well_placed(
    blocks: Seq<BlockSignature>,
    block_size: usize,
    source: Seq<u8>,
    step: Step,
    next: Option<Step>,
    at: int,
) -> bool {
    match step {
        Step::Literal(bytes) => {
            &&& bytes.len() > 0
            &&& 0 <= at && at + bytes.len() <= source.len()
            &&& bytes == source.subrange(at, at + bytes.len())
            &&& !(next matches Some(Step::Literal(_)))
            &&& forall|p: int, b: int|
                #![trigger source.subrange(p, p + block_size), blocks[b]]
                at <= p < at + bytes.len() && p + block_size <= source.len() && 0 <= b
                    < blocks.len() ==> !has_checksums_of(
                    blocks[b],
                    source.subrange(p, p + block_size),
                )
        },
        Step::Copy { block_index, len } => {
            &&& len == block_size
            &&& 0 <= at && at + block_size <= source.len()
            &&& exists|b: int|
                first_known(blocks, source.subrange(at, at + block_size), b)
                    && (#[trigger] blocks[b]).block_index == block_index
        },
    }
}

/// Whether `b` is the first block with the checksums of `window`.
pub open spec fn first_known(blocks: Seq<BlockSignature>, window: Seq<u8>, b: int) -> bool {
    &&& 0 <= b < blocks.len()
    &&& has_checksums_of(blocks[b], window)
    &&& forall|c: int| 0 <= c < b ==> !has_checksums_of(#[trigger] blocks[c], window)
}

spec fn head(steps: Seq<Step>) -> Option<Step> {
    if steps.len() > 0 {
        Some(steps[0])
    } else {
        None
    }
}

/// Whether the instructions, standing one behind the other from `at` on, are all well
/// placed and reach the end of the source.
spec fn lays_out(
    blocks: Seq<BlockSignature>,
    block_size: usize,
    source: Seq<u8>,
    steps: Seq<Step>,
    at: int,
) -> bool
    decreases steps.len(),
{
    if steps.len() == 0 {
        at == source.len()
    } else {
        &&& well_placed(blocks, block_size, source, steps[0], head(steps.drop_first()), at)
        &&& lays_out(blocks, block_size, source, steps.drop_first(), at + span_of(steps[0]))
    }
}

proof fn lemma_lays_out_each(
    blocks: Seq<BlockSignature>,
    block_size: usize,
    source: Seq<u8>,
    steps: Seq<Step>,
    at: int,
    k: int,
)
    requires
        lays_out(blocks, block_size, source, steps, at),
        0 <= k <= steps.len(),
    ensures
        k < steps.len() ==> well_placed(
            blocks,
            block_size,
            source,
            steps[k],
            head(steps.skip(k + 1)),
            at + position_of(steps, k),
        ),
        k == steps.len() ==> at + position_of(steps, k) == source.len(),
        k < steps.len() ==> position_of(steps, k + 1) == position_of(steps, k) + span_of(steps[k]),
    decreases k,
{
    if k == 0 {
        if steps.len() > 0 {
            assert(steps.skip(1) =~= steps.drop_first());
            assert(position_of(steps.drop_first(), 0) == 0);
        }
    } else {
        let rest = steps.drop_first();
        lemma_lays_out_each(blocks, block_size, source, rest, at + span_of(steps[0]), k - 1);
        if k < steps.len() {
            assert(rest[k - 1] == steps[k]);
            assert(rest.skip(k) =~= steps.skip(k + 1));
        }
    }
}

proof fn lemma_known_is_matched(signature: BlockSignature, block_size: usize, window: Seq<u8>)
    requires
        window.len() == block_size,
    ensures
        matched(signature, block_size, window) == has_checksums_of(signature, window),
{
}

proof fn lemma_first_match_is_first_known(
    blocks: Seq<BlockSignature>,
    block_size: usize,
    window: Seq<u8>,
)
    requires
        window.len() == block_size,
    ensures
        match first_match(blocks, block_size, window, 0) {
            Some(b) => first_known(blocks, window, b),
            None => forall|b: int|
                0 <= b < blocks.len() ==> !has_checksums_of(#[trigger] blocks[b], window),
        },
{
    lemma_first_match_matches(blocks, block_size, window, 0);
    assert forall|b: int| 0 <= b < blocks.len() && first_match(
        blocks,
        block_size,
        window,
        0,
    ) is None implies !has_checksums_of(#[trigger] blocks[b], window) by {
        lemma_absent_means_unmatched(blocks, block_size, window, 0, b);
        lemma_known_is_matched(blocks[b], block_size, window);
    }
    if let Some(b) = first_match(blocks, block_size, window, 0) {
        lemma_first_match_is_first(blocks, block_size, window, 0);
        lemma_known_is_matched(blocks[b], block_size, window);
        assert forall|c: int| 0 <= c < b implies !has_checksums_of(#[trigger] blocks[c], window) by {
            lemma_known_is_matched(blocks[c], block_size, window);
        }
    }
}

proof fn lemma_first_match_is_first(
    blocks: Seq<BlockSignature>,
    block_size: usize,
    window: Seq<u8>,
    from: int,
)
    requires
        0 <= from,
    ensures
        first_match(blocks, block_size, window, from) matches Some(b) ==> from <= b < blocks.len()
            && matched(blocks[b], block_size, window) && forall|c: int|
            from <= c < b ==> !matched(#[trigger] blocks[c], block_size, window),
    decreases blocks.len() - from,
{
    if from < blocks.len() && !matched(blocks[from], block_size, window) {
        lemma_first_match_is_first(blocks, block_size, window, from + 1);
    }
}

/// Whether no window that starts in front of `at`, from `from` on, has the checksums
/// of a block.
spec fn unknown_between(
    blocks: Seq<BlockSignature>,
    block_size: usize,
    source: Seq<u8>,
    from: int,
    at: int,
) -> bool {
    forall|p: int, b: int|
        #![trigger source.subrange(p, p + block_size), blocks[b]]
        from <= p < at && p + block_size <= source.len() && 0 <= b < blocks.len()
            ==> !has_checksums_of(blocks[b], source.subrange(p, p + block_size))
}

proof fn lemma_scan_lays_out(
    blocks: Seq<BlockSignature>,
    block_size: usize,
    source: Seq<u8>,
    from: int,
    at: int,
)
    requires
        block_size > 0,
        0 <= from <= at <= source.len(),
        unknown_between(blocks, block_size, source, from, at),
    ensures
        lays_out(
            blocks,
            block_size,
            source,
            scan(blocks, block_size, source, at, source.subrange(from, at)),
            from,
        ),
    decreases source.len() - at,
{
    let literal = source.subrange(from, at);
    let steps = scan(blocks, block_size, source, at, literal);
    if at + block_size > source.len() {
        let rest = literal + source.skip(at);
        assert(rest =~= source.subrange(from, source.len() as int));
        if rest.len() > 0 {
            assert(steps.drop_first() =~= Seq::<Step>::empty());
            assert(steps[0] == Step::Literal(rest));
            assert(well_placed(blocks, block_size, source, steps[0], None, from));
            assert(lays_out(
                blocks,
                block_size,
                source,
                Seq::<Step>::empty(),
                source.len() as int,
            ));
        }
    } else {
        let window = source.subrange(at, at + block_size);
        lemma_first_match_is_first_known(blocks, block_size, window);
        match first_match(blocks, block_size, window, 0) {
            Some(b) => {
                let copy = Step::Copy { block_index: blocks[b].block_index, len: blocks[b].len };
                let next = at + block_size;
                let after = scan(blocks, block_size, source, next, Seq::empty());
                assert(source.subrange(next, next) =~= Seq::<u8>::empty());
                lemma_scan_lays_out(blocks, block_size, source, next, next);
                let tail = seq![copy] + after;
                assert(tail.drop_first() =~= after);
                assert(well_placed(blocks, block_size, source, copy, head(after), at));
                assert(lays_out(blocks, block_size, source, tail, at));
                assert(steps =~= flushed(literal) + tail);
                if literal.len() == 0 {
                    assert(steps =~= tail);
                } else {
                    assert(steps.drop_first() =~= tail);
                    assert(steps[0] == Step::Literal(literal));
                    assert(well_placed(blocks, block_size, source, steps[0], Some(copy), from));
                }
            },
            None => {
                assert(literal.push(source[at]) =~= source.subrange(from, at + 1));
                assert(unknown_between(blocks, block_size, source, from, at + 1));
                lemma_scan_lays_out(blocks, block_size, source, from, at + 1);
            },
        }
    }
}

/// The instructions for a source stand for all of it, one behind the other. Each literal
/// is the run of the source where it stands, is not empty and has no other literal
/// behind it. No window that starts in a literal has the length and both checksums of a
/// block. Each copy is of one block's length, and of the first block that has the
/// checksums of the window where it stands.
pub proof fn lemma_recipe_finds_every_known_block(
    blocks: Seq<BlockSignature>,
    block_size: usize,
    source: Seq<u8>,
)
    requires
        block_size > 0,
    ensures
        ({
            let steps = recipe_steps(blocks, block_size, source);
            &&& position_of(steps, steps.len() as int) == source.len()
            &&& forall|k: int|
                #![trigger steps[k]]
                0 <= k < steps.len() ==> {
                    let at = position_of(steps, k);
                    match steps[k] {
                        Step::Literal(bytes) => {
                            &&& bytes.len() > 0
                            &&& at + bytes.len() <= source.len()
                            &&& bytes == source.subrange(at, at + bytes.len())
                            &&& k + 1 < steps.len() ==> steps[k + 1] is Copy
                            &&& forall|p: int, b: int|
                                #![trigger source.subrange(p, p + block_size), blocks[b]]
                                at <= p < at + bytes.len() && p + block_size <= source.len() && 0
                                    <= b < blocks.len() ==> !has_checksums_of(
                                    blocks[b],
                                    source.subrange(p, p + block_size),
                                )
                        },
                        Step::Copy { block_index, len } => {
                            &&& len == block_size
                            &&& at + block_size <= source.len()
                            &&& exists|b: int|
                                first_known(blocks, source.subrange(at, at + block_size), b)
                                    && (#[trigger] blocks[b]).block_index == block_index
                        },
                    }
                }
        }),
{
    let steps = recipe_steps(blocks, block_size, source);
    assert(source.subrange(0, 0) =~= Seq::<u8>::empty());
    lemma_scan_lays_out(blocks, block_size, source, 0, 0);
    lemma_lays_out_each(blocks, block_size, source, steps, 0, steps.len() as int);
    assert forall|k: int| #![trigger steps[k]] 0 <= k < steps.len() implies well_placed(
        blocks,
        block_size,
        source,
        steps[k],
        head(steps.skip(k + 1)),
        position_of(steps, k),
    ) && (k + 1 < steps.len() ==> head(steps.skip(k + 1)) == Some(steps[k + 1])) by {
        lemma_lays_out_each(blocks, block_size, source, steps, 0, k);
    }
}

proof fn lemma_scan_passes(
    blocks: Seq<BlockSignature>,
    block_size: usize,
    source: Seq<u8>,
    at: int,
    upto: int,
    literal: Seq<u8>,
)
    requires
        block_size > 0,
        0 <= at <= upto,
        upto + block_size <= source.len(),
        unknown_between(blocks, block_size, source, at, upto),
    ensures
        scan(blocks, block_size, source, at, literal) == scan(
            blocks,
            block_size,
            source,
            upto,
            literal + source.subrange(at, upto),
        ),
    decreases upto - at,
{
    if at == upto {
        assert(literal + source.subrange(at, upto) =~= literal);
    } else {
        let window = source.subrange(at, at + block_size);
        lemma_first_match_is_first_known(blocks, block_size, window);
        if let Some(b) = first_match(blocks, block_size, window, 0) {
            assert(!has_checksums_of(blocks[b], window));
        }
        lemma_scan_passes(blocks, block_size, source, at + 1, upto, literal.push(source[at]));
        assert(literal.push(source[at]) + source.subrange(at + 1, upto) =~= literal
            + source.subrange(at, upto));
    }
}

proof fn lemma_scan_shifts(
    blocks: Seq<BlockSignature>,
    block_size: usize,
    front: Seq<u8>,
    source: Seq<u8>,
    at: int,
    literal: Seq<u8>,
)
    requires
        block_size > 0,
        0 <= at <= source.len(),
    ensures
        scan(blocks, block_size, front + source, front.len() + at, literal) == scan(
            blocks,
            block_size,
            source,
            at,
            literal,
        ),
    decreases source.len() - at,
{
    let whole = front + source;
    let there = front.len() + at;
    if at + block_size > source.len() {
        assert(whole.skip(there) =~= source.skip(at));
    } else {
        assert(whole.subrange(there, there + block_size) =~= source.subrange(at, at + block_size));
        lemma_scan_shifts(blocks, block_size, front, source, at + block_size, Seq::empty());
        lemma_scan_shifts(blocks, block_size, front, source, at + 1, literal.push(source[at]));
        assert(whole[there] == source[at]);
    }
}

/// Bytes in front of a known block, in which no window with the checksums of a block
/// starts, become a literal. The block becomes a copy, and what follows becomes what it
/// becomes on its own.
pub proof fn lemma_unknown_prefix_is_one_literal(
    blocks: Seq<BlockSignature>,
    block_size: usize,
    prefix: Seq<u8>,
    block: Seq<u8>,
    rest: Seq<u8>,
    b: int,
)
    requires
        block_size > 0,
        block.len() == block_size,
        first_known(blocks, block, b),
        forall|p: int, c: int|
            #![trigger (prefix + block + rest).subrange(p, p + block_size), blocks[c]]
            0 <= p < prefix.len() && p + block_size <= (prefix + block + rest).len() && 0 <= c
                < blocks.len() ==> !has_checksums_of(
                blocks[c],
                (prefix + block + rest).subrange(p, p + block_size),
            ),
    ensures
        recipe_steps(blocks, block_size, prefix + block + rest) == (if prefix.len() == 0 {
            Seq::<Step>::empty()
        } else {
            seq![Step::Literal(prefix)]
        }) + seq![Step::Copy { block_index: blocks[b].block_index, len: block_size }]
            + recipe_steps(blocks, block_size, rest),
{
    let source = prefix + block + rest;
    let at = prefix.len() as int;
    assert(unknown_between(blocks, block_size, source, 0, at));
    lemma_scan_passes(blocks, block_size, source, 0, at, Seq::empty());
    assert(Seq::<u8>::empty() + source.subrange(0, at) =~= prefix);
    assert(source.subrange(at, at + block_size) =~= block);
    lemma_first_match_is_first_known(blocks, block_size, block);
    let found = first_match(blocks, block_size, block, 0);
    if found is None {
        assert(!has_checksums_of(blocks[b], block));
    } else if found->0 < b {
        assert(!has_checksums_of(blocks[found->0], block));
    } else if found->0 > b {
        assert(!has_checksums_of(blocks[b], block));
    }
    lemma_scan_shifts(blocks, block_size, prefix + block, rest, 0, Seq::empty());
    assert(recipe_steps(blocks, block_size, source) =~= (if prefix.len() == 0 {
        Seq::<Step>::empty()
    } else {
        seq![Step::Literal(prefix)]
    }) + seq![Step::Copy { block_index: blocks[b].block_index, len: block_size }] + recipe_steps(
        blocks,
        block_size,
        rest,
    ));
}

/// The blocks of a basis, put together, are the basis. All are of the block size but the
/// last, which may be short and is not empty.
pub proof fn lemma_blocks_tile_the_basis(basis: Seq<u8>, block_size: int, index: int)
    requires
        block_size > 0,
        0 <= index < block_count(basis.len() as int, block_size),
    ensures
        0 < block_at(basis, block_size, index).len() <= block_size,
        index + 1 < block_count(basis.len() as int, block_size) ==> block_at(
            basis,
            block_size,
            index,
        ).len() == block_size,
        index + 1 == block_count(basis.len() as int, block_size) ==> index * block_size + block_at(
            basis,
            block_size,
            index,
        ).len() == basis.len(),
        block_at(basis, block_size, index) == basis.subrange(
            index * block_size,
            index * block_size + block_at(basis, block_size, index).len(),
        ),
{
    let count = block_count(basis.len() as int, block_size);
    let start = index * block_size;
    lemma_block_inside(basis.len() as int, block_size, index);
    vstd::arithmetic::div_mod::lemma_fundamental_div_mod(
        basis.len() + block_size - 1,
        block_size,
    );
    assert((index + 1) * block_size == start + block_size) by (nonlinear_arith)
        requires
            start == index * block_size,
    ;
    if index + 1 < count {
        lemma_block_inside(basis.len() as int, block_size, index + 1);
    } else {
        assert(count * block_size == block_size * count) by (nonlinear_arith);
        assert(start + block_size >= basis.len());
    }
}

/// Only a basis without bytes has no blocks.
pub proof fn lemma_some_bytes_have_some_block(len: int, block_size: int)
    requires
        block_size > 0,
        len >= 0,
    ensures
        block_count(len, block_size) == 0 <==> len == 0,
        block_count(len, block_size) >= 0,
{
    vstd::arithmetic::div_mod::lemma_fundamental_div_mod(len + block_size - 1, block_size);
    let count = block_count(len, block_size);
    assert(len > 0 ==> count > 0) by (nonlinear_arith)
        requires
            block_size > 0,
            len >= 0,
            len + block_size - 1 == block_size * count + (len + block_size - 1) % block_size,
            0 <= (len + block_size - 1) % block_size < block_size,
    ;
    assert(len == 0 ==> count == 0) by (nonlinear_arith)
        requires
            block_size > 0,
            len >= 0,
            len + block_size - 1 == block_size * count + (len + block_size - 1) % block_size,
            0 <= (len + block_size - 1) % block_size < block_size,
    ;
    assert(count >= 0) by (nonlinear_arith)
        requires
            block_size > 0,
            len >= 0,
            len + block_size - 1 == block_size * count + (len + block_size - 1) % block_size,
            0 <= (len + block_size - 1) % block_size < block_size,
    ;
}

/// What instructions rebuild, when others follow, comes first in what all of them rebuild.
/// A copy that does not fit among them spoils the whole.
pub proof fn lemma_replays_follow_one_another(
    left: Seq<Step>,
    right: Seq<Step>,
    block_size: usize,
    basis: Seq<u8>,
)
    ensures
        replayed(left + right, block_size, basis) == match replayed(left, block_size, basis) {
            Err(block_index) => Err(block_index),
            Ok(first) => match replayed(right, block_size, basis) {
                Err(block_index) => Err(block_index),
                Ok(second) => Ok(first + second),
            },
        },
    decreases left.len(),
{
    if left.len() == 0 {
        assert(left + right =~= right);
        if let Ok(second) = replayed(right, block_size, basis) {
            assert(Seq::<u8>::empty() + second =~= second);
        }
    } else {
        assert((left + right).drop_first() =~= left.drop_first() + right);
        assert((left + right)[0] == left[0]);
        lemma_replays_follow_one_another(left.drop_first(), right, block_size, basis);
        if let (Ok(first), Ok(second)) = (
            replayed(left.drop_first(), block_size, basis),
            replayed(right, block_size, basis),
        ) {
            match left[0] {
                Step::Literal(bytes) => {
                    assert(bytes + (first + second) =~= bytes + first + second);
                },
                Step::Copy { block_index, len } => {
                    let bytes = copied(block_index, len, block_size, basis);
                    assert(bytes + (first + second) =~= bytes + first + second);
                },
            }
        }
    }
}

/// One literal rebuilds its bytes. One copy rebuilds the bytes of the basis from the start
/// of its block on, unless they reach past the end, or the start does not fit in 64 bits.
pub proof fn lemma_one_instruction_rebuilds_its_bytes(
    step: Step,
    block_size: usize,
    basis: Seq<u8>,
)
    requires
        basis.len() <= u64::MAX,
    ensures
        replayed(seq![step], block_size, basis) == match step {
            Step::Literal(bytes) => Ok::<Seq<u8>, usize>(bytes),
            Step::Copy { block_index, len } => {
                let start = block_index * block_size;
                if len == 0 && start <= u64::MAX {
                    Ok(Seq::empty())
                } else if len > 0 && start + len <= basis.len() {
                    Ok(basis.subrange(start, start + len))
                } else {
                    Err(block_index)
                }
            },
        },
        replayed(Seq::empty(), block_size, basis) == Ok::<Seq<u8>, usize>(Seq::empty()),
{
    let one = seq![step];
    assert(one.drop_first() =~= Seq::<Step>::empty());
    assert(replayed(one.drop_first(), block_size, basis) == Ok::<Seq<u8>, usize>(Seq::empty()));
    match step {
        Step::Literal(bytes) => {
            assert(bytes + Seq::<u8>::empty() =~= bytes);
        },
        Step::Copy { block_index, len } => {
            let bytes = copied(block_index, len, block_size, basis);
            assert(bytes + Seq::<u8>::empty() =~= bytes);
            if len == 0 {
                assert(bytes =~= Seq::<u8>::empty());
            }
        },
    }
}

} // verus!
