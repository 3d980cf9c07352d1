//! The rolling checksum that both delta scanners filter candidate blocks with.
//!
//! A checksum packs two sixteen-bit sums of a window of bytes: the plain sum in
//! the low half, and in the high half the sum in which the first byte counts
//! once for every byte of the window and each later byte once less. Sliding the
//! window by one byte changes both halves by amounts that depend only on the
//! byte that leaves, the byte that enters and the window's length.

use vstd::prelude::*;

verus! {

/// Modulus of each half of a checksum.
pub const ROLL_MOD: u32 = 65536;

/// Sum of the bytes of `window`.
pub open spec fn byte_sum(window: Seq<u8>) -> int
    decreases window.len(),
{
    if window.len() == 0 {
        0
    } else {
        window[0] as int + byte_sum(window.drop_first())
    }
}

/// Sum of the bytes of `window`, each weighted by the number of bytes from it
/// to the end of the window, itself included.
pub open spec fn weighted_sum(window: Seq<u8>) -> int
    decreases window.len(),
{
    if window.len() == 0 {
        0
    } else {
        window.len() * (window[0] as int) + weighted_sum(window.drop_first())
    }
}

/// The checksum with the given halves.
pub open spec fn packed(weighted: int, plain: int) -> u32 {
    ((weighted % 65536) * 65536 + plain % 65536) as u32
}

/// The rolling checksum of `window`.
pub open spec fn weak_of(window: Seq<u8>) -> u32 {
    packed(weighted_sum(window), byte_sum(window))
}

/// The checksum that follows `previous` when a window of `len` bytes loses
/// `outgoing` in front and gains `incoming` behind.
pub open spec fn rolled(previous: u32, outgoing: u8, incoming: u8, len: int) -> u32 {
    let plain = previous as int % 65536 + incoming - outgoing;
    packed(previous as int / 65536 + plain - len * outgoing, plain)
}

proof fn lemma_sums_push(window: Seq<u8>, byte: u8)
    ensures
        byte_sum(window.push(byte)) == byte_sum(window) + byte,
        weighted_sum(window.push(byte)) == weighted_sum(window) + byte_sum(window) + byte,
    decreases window.len(),
{
    let grown = window.push(byte);
    if window.len() == 0 {
        assert(grown.drop_first() =~= Seq::<u8>::empty());
        assert(byte_sum(grown.drop_first()) == 0);
        assert(weighted_sum(grown.drop_first()) == 0);
    } else {
        lemma_sums_push(window.drop_first(), byte);
        assert(grown.drop_first() =~= window.drop_first().push(byte));
        let first = window[0] as int;
        assert((window.len() + 1) * first == window.len() * first + first) by (nonlinear_arith);
    }
}

/// Two sums that agree modulo the checksum modulus pack to the same half.
proof fn lemma_packed_congruent(weighted: int, plain: int, weighted2: int, plain2: int)
    requires
        weighted % 65536 == weighted2 % 65536,
        plain % 65536 == plain2 % 65536,
    ensures
        packed(weighted, plain) == packed(weighted2, plain2),
{
}

/// Rolling a window's checksum by one byte gives the checksum of the window one
/// byte further on.
pub proof fn lemma_rolling_matches_recomputation(window: Seq<u8>, incoming: u8)
    requires
        window.len() > 0,
    ensures
        rolled(weak_of(window), window[0], incoming, window.len() as int) == weak_of(
            window.drop_first().push(incoming),
        ),
{
    let rest = window.drop_first();
    lemma_sums_push(rest, incoming);
    let previous = weak_of(window);
    let weighted = weighted_sum(window);
    let plain = byte_sum(window);
    assert(previous as int % 65536 == plain % 65536);
    assert(previous as int / 65536 == weighted % 65536);
    let product = window.len() * (window[0] as int);
    let new_plain = previous as int % 65536 + incoming - window[0];
    assert(new_plain % 65536 == byte_sum(rest.push(incoming)) % 65536);
    let new_weighted = previous as int / 65536 + new_plain - product;
    assert(new_weighted % 65536 == weighted_sum(rest.push(incoming)) % 65536);
    lemma_packed_congruent(
        new_weighted,
        new_plain,
        weighted_sum(rest.push(incoming)),
        byte_sum(rest.push(incoming)),
    );
}

/// Computes the rolling checksum of `data` from scratch.
pub fn weak_checksum(data: &[u8]) -> (checksum: u32)
    ensures
        checksum == weak_of(data@),
{
    let mut a: u32 = 0;
    let mut b: u32 = 0;
    let ghost mut plain: int = 0;
    let ghost mut weighted: int = 0;
    let mut index: usize = 0;
    assert(data@.skip(0) =~= data@);
    while index < data.len()
        invariant
            index <= data.len(),
            a == plain % 65536,
            b == weighted % 65536,
            plain + byte_sum(data@.skip(index as int)) == byte_sum(data@),
            weighted + weighted_sum(data@.skip(index as int)) == weighted_sum(data@),
        decreases data.len() - index,
    {
        let byte: u8 = data[index];
        let weighted_byte: u32 = weighted_residue(data.len() - index, byte);
        proof {
            let rest = data@.skip(index as int);
            assert(rest.drop_first() =~= data@.skip(index + 1));
            assert(rest[0] == byte);
            plain = plain + byte;
            weighted = weighted + rest.len() * (byte as int);
        }
        a = (a + byte as u32) % ROLL_MOD;
        b = (b + weighted_byte) % ROLL_MOD;
        index = index + 1;
    }
    assert(data@.skip(index as int) =~= Seq::<u8>::empty());
    assert(byte_sum(data@.skip(index as int)) == 0);
    assert(weighted_sum(data@.skip(index as int)) == 0);
    pack(b, a)
}

/// Reducing a weight before multiplying leaves the product's residue unchanged.
proof fn lemma_scaled_weight(count: int, byte: int)
    ensures
        ((count % 65536) * byte) % 65536 == (count * byte) % 65536,
{
    vstd::arithmetic::div_mod::lemma_mul_mod_noop(count, byte, 65536);
    vstd::arithmetic::div_mod::lemma_mul_mod_noop(count % 65536, byte, 65536);
}

/// The non-negative form of a difference has the difference's residue.
proof fn lemma_residue_of_difference(x: int, reduced: int, y: int)
    requires
        reduced % 65536 == y % 65536,
    ensures
        (x % 65536 + 65536 - reduced) % 65536 == (x - y) % 65536,
{
}

/// The residue of `weight` times `byte`.
fn weighted_residue(weight: usize, byte: u8) -> (residue: u32)
    ensures
        residue == (weight * (byte as int)) % 65536,
{
    let reduced: u32 = (weight % ROLL_MOD as usize) as u32;
    proof {
        assert(reduced as int * byte as int <= 65535 * 255) by (nonlinear_arith)
            requires
                0 <= reduced <= 65535,
                0 <= byte <= 255,
        ;
        lemma_scaled_weight(weight as int, byte as int);
    }
    (reduced * byte as u32) % ROLL_MOD
}

fn pack(b: u32, a: u32) -> (checksum: u32)
    requires
        a < 65536,
        b < 65536,
    ensures
        checksum == packed(b as int, a as int),
{
    assert((b << 16) | a == (b * 65536 + a) as u32) by (bit_vector)
        requires
            a < 65536,
            b < 65536,
    ;
    (b << 16) | a
}

/// The halves that the arithmetic of a roll produces, given the residue of the
/// weighted byte that leaves.
proof fn lemma_rolled_halves(
    a: int,
    b: int,
    outgoing: int,
    incoming: int,
    removed: int,
    product: int,
    next_a: int,
    next_b: int,
)
    requires
        removed % 65536 == product % 65536,
        next_a == ((a + incoming) % 65536 + 65536 - outgoing) % 65536,
        next_b == ((b + next_a) % 65536 + 65536 - removed) % 65536,
    ensures
        packed(next_b, next_a) == packed(b + (a + incoming - outgoing) - product, a + incoming
            - outgoing),
{
    let plain = a + incoming - outgoing;
    lemma_residue_of_difference(a + incoming, outgoing, outgoing);
    lemma_residue_of_difference(b + next_a, removed, product);
    assert((b + next_a - product) % 65536 == (b + plain - product) % 65536);
    lemma_packed_congruent(next_b, next_a, b + plain - product, plain);
}

/// Rolls a checksum of a window of `block_size` bytes forward by one byte.
pub fn roll_weak_checksum(previous: u32, outgoing: u8, incoming: u8, block_size: usize) -> (next:
    u32)
    ensures
        next == rolled(previous, outgoing, incoming, block_size as int),
{
    let a: u32 = previous & 0xFFFF;
    let b: u32 = (previous >> 16) & 0xFFFF;
    assert(a == previous as int % 65536) by {
        assert(previous & 0xFFFF == previous % 65536) by (bit_vector);
    }
    assert(b == previous as int / 65536) by {
        assert((previous >> 16) & 0xFFFF == previous / 65536) by (bit_vector);
    }
    // Adding the modulus first keeps every difference non-negative.
    let next_a: u32 = ((a + incoming as u32) % ROLL_MOD + ROLL_MOD - outgoing as u32) % ROLL_MOD;
    let removed: u32 = weighted_residue(block_size, outgoing);
    let next_b: u32 = ((b + next_a) % ROLL_MOD + ROLL_MOD - removed) % ROLL_MOD;
    proof {
        lemma_rolled_halves(
            a as int,
            b as int,
            outgoing as int,
            incoming as int,
            removed as int,
            block_size * (outgoing as int),
            next_a as int,
            next_b as int,
        );
    }
    pack(next_b, next_a)
}

proof fn lemma_sums_append(left: Seq<u8>, right: Seq<u8>)
    ensures
        byte_sum(left + right) == byte_sum(left) + byte_sum(right),
        weighted_sum(left + right) == weighted_sum(left) + right.len() * byte_sum(left)
            + weighted_sum(right),
    decreases right.len(),
{
    if right.len() == 0 {
        assert(left + right =~= left);
        assert(right.len() * byte_sum(left) == 0) by (nonlinear_arith)
            requires
                right.len() == 0,
        ;
    } else {
        let (front, last) = (right.drop_last(), right.last());
        lemma_sums_append(left, front);
        assert(left + right =~= (left + front).push(last));
        assert(right =~= front.push(last));
        lemma_sums_push(left + front, last);
        lemma_sums_push(front, last);
        assert(right.len() * byte_sum(left) == front.len() * byte_sum(left) + byte_sum(left))
            by (nonlinear_arith)
            requires
                right.len() == front.len() + 1,
        ;
    }
}

/// The low half of a checksum is the sum of the bytes, and the high half the sum of the
/// bytes each weighted by its distance from the end, both modulo 65536. Both sums follow
/// from their values for single bytes: what stands behind a run adds its own sums, and adds
/// the run's plain sum to the weighted one as often as it has bytes.
pub proof fn lemma_checksum_packs_two_sums(left: Seq<u8>, right: Seq<u8>, byte: u8)
    ensures
        weak_of(left) as int % 65536 == byte_sum(left) % 65536,
        weak_of(left) as int / 65536 == weighted_sum(left) % 65536,
        byte_sum(Seq::empty()) == 0,
        weighted_sum(Seq::empty()) == 0,
        byte_sum(seq![byte]) == byte,
        weighted_sum(seq![byte]) == byte,
        byte_sum(left + right) == byte_sum(left) + byte_sum(right),
        weighted_sum(left + right) == weighted_sum(left) + right.len() * byte_sum(left)
            + weighted_sum(right),
{
    lemma_sums_append(left, right);
    lemma_sums_push(Seq::empty(), byte);
    assert(Seq::<u8>::empty().push(byte) =~= seq![byte]);
}

/// Rolling takes the byte that leaves off the plain sum and adds the one that enters. The
/// weighted sum gains the new plain sum, and loses the byte that leaves once for every byte
/// of the window.
pub proof fn lemma_rolling_changes_both_sums(previous: u32, outgoing: u8, incoming: u8, len: int)
    ensures
        ({
            let plain = previous as int % 65536 + incoming - outgoing;
            let next = rolled(previous, outgoing, incoming, len);
            &&& next as int % 65536 == plain % 65536
            &&& next as int / 65536 == (previous as int / 65536 + plain - len * outgoing) % 65536
        }),
{
}

} // verus!
