//! Blocks of file contents: their checksums and their size.

use crate::checksum::{roll_weak_checksum, weak_checksum};
use crate::digest::sha256;
use crate::text::lossy;
use vstd::prelude::*;
use vstd::slice::slice_to_vec;

verus! {

pub const KB: usize = 1024;

pub const MB: usize = 1048576;

pub const GB: usize = 1073741824;

/// One tebibyte, which a 32-bit `usize` could not hold.
pub const TB: u64 = 1099511627776;

/// Smallest block that a comparison uses.
pub const MIN_BLOCK_SIZE: usize = 4096;

/// Largest block that a comparison uses.
pub const MAX_BLOCK_SIZE: usize = 4194304;

/// Bytes of one block of a file.
pub struct Block(pub Vec<u8>);

impl From<&[u8]> for Block {
    fn from(bytes: &[u8]) -> (block: Self)
        ensures
            block.0@ == bytes@,
    {
        Block(slice_to_vec(bytes))
    }
}

impl vstd::std_specs::convert::FromSpecImpl<&[u8]> for Block {
    open spec fn obeys_from_spec() -> bool {
        false
    }

    open spec fn from_spec(bytes: &[u8]) -> Self {
        arbitrary()
    }
}

/// The first size from `size` on that is no smaller than the square root of
/// `len` rounded to the nearest integer, or else the largest size there is.
pub open spec fn block_size_from(len: int, size: int) -> int
    decreases MAX_BLOCK_SIZE - size,
{
    if size >= MAX_BLOCK_SIZE || len <= size * size + size {
        size
    } else {
        block_size_from(len, size + 1)
    }
}

/// The block size for a file of `len` bytes: the square root of the length,
/// rounded to the nearest integer and kept between the two bounds.
///
/// An integer `r` is the nearest to the square root of `len` when
/// `r * r - r < len <= r * r + r`, and no square root lies half way.
pub open spec fn block_size_for(len: int) -> int {
    block_size_from(len, MIN_BLOCK_SIZE as int)
}

proof fn lemma_square_sum_grows(smaller: int, larger: int)
    requires
        0 <= smaller <= larger,
    ensures
        smaller * smaller + smaller <= larger * larger + larger,
{
    assert(smaller * smaller <= larger * larger) by (nonlinear_arith)
        requires
            0 <= smaller <= larger,
    ;
}

/// A size that is large enough, and none below it is, is the block size.
proof fn lemma_block_size_found(len: int, from: int, size: int)
    requires
        0 <= from <= size <= MAX_BLOCK_SIZE,
        size > from ==> len > (size - 1) * (size - 1) + (size - 1),
        size == MAX_BLOCK_SIZE || len <= size * size + size,
    ensures
        block_size_from(len, from) == size,
    decreases size - from,
{
    if from < size {
        lemma_square_sum_grows(from, size - 1);
        lemma_block_size_found(len, from + 1, size);
    }
}

proof fn lemma_block_size_from_bounds(len: int, from: int)
    requires
        0 <= from <= MAX_BLOCK_SIZE,
    ensures
        from <= block_size_from(len, from) <= MAX_BLOCK_SIZE,
        ({
            let size = block_size_from(len, from);
            &&& size > from ==> len > (size - 1) * (size - 1) + (size - 1)
            &&& size == MAX_BLOCK_SIZE || len <= size * size + size
        }),
    decreases MAX_BLOCK_SIZE - from,
{
    if !(from >= MAX_BLOCK_SIZE || len <= from * from + from) {
        lemma_block_size_from_bounds(len, from + 1);
    }
}

/// The block size lies between the bounds, and wherever they leave it free it is
/// the integer nearest to the square root of the length.
pub proof fn lemma_block_size_is_the_clamped_root(len: int)
    ensures
        ({
            let size = block_size_for(len);
            &&& MIN_BLOCK_SIZE <= size <= MAX_BLOCK_SIZE
            &&& size > MIN_BLOCK_SIZE ==> size * size - size < len
            &&& size < MAX_BLOCK_SIZE ==> len <= size * size + size
        }),
{
    lemma_block_size_from_bounds(len, MIN_BLOCK_SIZE as int);
    let size = block_size_for(len);
    assert((size - 1) * (size - 1) + (size - 1) == size * size - size) by (nonlinear_arith);
}

/// The block size grows with the file, so the size for the smaller of two files
/// is the smaller of their two sizes.
pub proof fn lemma_block_size_is_monotone(smaller: int, larger: int)
    requires
        smaller <= larger,
    ensures
        block_size_for(smaller) <= block_size_for(larger),
{
    lemma_block_size_from_bounds(smaller, MIN_BLOCK_SIZE as int);
    lemma_block_size_from_bounds(larger, MIN_BLOCK_SIZE as int);
    let first = block_size_for(smaller);
    let second = block_size_for(larger);
    if second < first {
        lemma_square_sum_grows(second, first - 1);
    }
}

/// Both peers agree on a block size: choosing it for the smaller of the two files,
/// and choosing the smaller of the sizes for each, come to the same, whichever
/// file is named first.
pub proof fn lemma_peers_agree_on_the_block_size(left: int, right: int)
    ensures
        smaller_of(block_size_for(left), block_size_for(right)) == block_size_for(
            smaller_of(left, right),
        ),
        smaller_of(block_size_for(left), block_size_for(right)) == smaller_of(
            block_size_for(right),
            block_size_for(left),
        ),
{
    if left <= right {
        lemma_block_size_is_monotone(left, right);
    } else {
        lemma_block_size_is_monotone(right, left);
    }
}

/// The smaller of two numbers.
pub open spec fn smaller_of(left: int, right: int) -> int {
    if left <= right {
        left
    } else {
        right
    }
}

/// Finds the block size for a file of `len` bytes by bisection.
pub fn individual_block_size(len: u64) -> (size: usize)
    ensures
        size == block_size_for(len as int),
{
    let mut low: u64 = MIN_BLOCK_SIZE as u64;
    let mut high: u64 = MAX_BLOCK_SIZE as u64;
    while low < high
        invariant
            MIN_BLOCK_SIZE <= low <= high <= MAX_BLOCK_SIZE,
            low > MIN_BLOCK_SIZE ==> len > (low - 1) * (low - 1) + (low - 1),
            high == MAX_BLOCK_SIZE || len <= high * high + high,
        decreases high - low,
    {
        let middle: u64 = low + (high - low) / 2;
        assert(0 <= middle * middle <= 4194304 * 4194304) by (nonlinear_arith)
            requires
                0 <= middle <= 4194304,
        ;
        if len <= middle * middle + middle {
            high = middle;
        } else {
            low = middle + 1;
        }
    }
    proof {
        lemma_block_size_found(len as int, MIN_BLOCK_SIZE as int, low as int);
    }
    low as usize
}

impl Block {
    /// The SHA-256 hash of `data`.
    pub fn compute_strong_checksum(data: &[u8]) -> (strong: Vec<u8>)
        ensures
            strong@ == crate::digest::sha256_of(data@),
            strong@.len() == 32,
    {
        sha256(data)
    }

    /// The rolling checksum of `data`.
    pub fn compute_weak_checksum(data: &[u8]) -> (checksum: u32)
        ensures
            checksum == crate::checksum::weak_of(data@),
    {
        weak_checksum(data)
    }

    /// The rolling checksum of a window that slides on by one byte.
    pub fn update_weak_checksum(
        old_checksum: u32,
        old_byte: u8,
        new_byte: u8,
        block_size: usize,
    ) -> (checksum: u32)
        ensures
            checksum == crate::checksum::rolled(
                old_checksum,
                old_byte,
                new_byte,
                block_size as int,
            ),
    {
        roll_weak_checksum(old_checksum, old_byte, new_byte, block_size)
    }

    /// The low half of a rolling checksum.
    pub fn cut_weak_checksum(checksum: u32) -> (cut: u16)
        ensures
            cut == checksum as int % 65536,
    {
        assert(checksum & 0xFFFF == checksum % 65536) by (bit_vector);
        (checksum & 0xFFFF) as u16
    }

    /// The block size for comparing files of the two lengths: the smaller of
    /// what suits each of them.
    pub fn calculate_block_size(src_size: u64, dest_size: u64) -> (size: usize)
        ensures
            size == smaller_of(
                block_size_for(src_size as int),
                block_size_for(dest_size as int),
            ),
            size <= block_size_for(src_size as int),
            size <= block_size_for(dest_size as int),
    {
        let src_block_size: usize = individual_block_size(src_size);
        let dest_block_size: usize = individual_block_size(dest_size);
        if src_block_size <= dest_block_size {
            src_block_size
        } else {
            dest_block_size
        }
    }

    /// The block as text, with every ill-formed part replaced.
    pub fn to_string(&self) -> (text: String)
        ensures
            text@ == crate::text::lossy_text(self.0@),
            vstd::utf8::valid_utf8(self.0@) ==> text@ == vstd::utf8::decode_utf8(self.0@),
    {
        lossy(self.0.as_slice())
    }
}

/// The smaller of two numbers is one of them, and greater than neither.
pub proof fn lemma_smaller_is_greater_than_neither(left: int, right: int)
    ensures
        smaller_of(left, right) == left || smaller_of(left, right) == right,
        smaller_of(left, right) <= left,
        smaller_of(left, right) <= right,
{
}

} // verus!
