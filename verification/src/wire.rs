//! Fixed-width integers on the wire.

use vstd::prelude::*;

verus! {

/// `value` in two bytes, the higher first.
pub open spec fn be16(value: u16) -> Seq<u8> {
    seq![(value / 256) as u8, (value % 256) as u8]
}

/// `value` in four bytes, the highest first.
pub open spec fn be32(value: u32) -> Seq<u8> {
    seq![
        (value / 0x100_0000) as u8,
        (value / 0x1_0000 % 256) as u8,
        (value / 0x100 % 256) as u8,
        (value % 256) as u8,
    ]
}

/// `value` in two bytes, the lower first.
pub open spec fn le16(value: u16) -> Seq<u8> {
    seq![(value % 256) as u8, (value / 256) as u8]
}

/// `value` in four bytes, the lowest first.
pub open spec fn le32(value: u32) -> Seq<u8> {
    seq![
        (value % 256) as u8,
        (value / 0x100 % 256) as u8,
        (value / 0x1_0000 % 256) as u8,
        (value / 0x100_0000) as u8,
    ]
}

/// The number in the two bytes from `at` on, the higher first.
pub open spec fn be16_at(bytes: Seq<u8>, at: int) -> u16 {
    (bytes[at] * 256 + bytes[at + 1]) as u16
}

/// The number in the four bytes from `at` on, the highest first.
pub open spec fn be32_at(bytes: Seq<u8>, at: int) -> u32 {
    (bytes[at] * 0x100_0000 + bytes[at + 1] * 0x1_0000 + bytes[at + 2] * 0x100 + bytes[at
        + 3]) as u32
}

/// The number in the two bytes from `at` on, the lower first.
pub open spec fn le16_at(bytes: Seq<u8>, at: int) -> u16 {
    (bytes[at + 1] * 256 + bytes[at]) as u16
}

/// The number in the four bytes from `at` on, the lowest first.
pub open spec fn le32_at(bytes: Seq<u8>, at: int) -> u32 {
    (bytes[at + 3] * 0x100_0000 + bytes[at + 2] * 0x1_0000 + bytes[at + 1] * 0x100
        + bytes[at]) as u32
}

/// Reading what was written gives the number back.
pub proof fn lemma_written_is_read(bytes: Seq<u8>, at: int)
    requires
        0 <= at,
    ensures
        forall|value: u16|
            at + 2 <= bytes.len() && bytes.subrange(at, at + 2) == #[trigger] be16(value)
                ==> be16_at(bytes, at) == value,
        forall|value: u32|
            at + 4 <= bytes.len() && bytes.subrange(at, at + 4) == #[trigger] be32(value)
                ==> be32_at(bytes, at) == value,
        forall|value: u16|
            at + 2 <= bytes.len() && bytes.subrange(at, at + 2) == #[trigger] le16(value)
                ==> le16_at(bytes, at) == value,
        forall|value: u32|
            at + 4 <= bytes.len() && bytes.subrange(at, at + 4) == #[trigger] le32(value)
                ==> le32_at(bytes, at) == value,
{
    assert forall|value: u16|
        at + 2 <= bytes.len() && bytes.subrange(at, at + 2) == #[trigger] be16(
            value,
        ) implies be16_at(bytes, at) == value by {
        let written = bytes.subrange(at, at + 2);
        assert(bytes[at] == written[0] && bytes[at + 1] == written[1]);
    }
    assert forall|value: u32|
        at + 4 <= bytes.len() && bytes.subrange(at, at + 4) == #[trigger] be32(
            value,
        ) implies be32_at(bytes, at) == value by {
        let written = bytes.subrange(at, at + 4);
        assert(bytes[at] == written[0] && bytes[at + 1] == written[1]);
        assert(bytes[at + 2] == written[2] && bytes[at + 3] == written[3]);
    }
    assert forall|value: u16|
        at + 2 <= bytes.len() && bytes.subrange(at, at + 2) == #[trigger] le16(
            value,
        ) implies le16_at(bytes, at) == value by {
        let written = bytes.subrange(at, at + 2);
        assert(bytes[at] == written[0] && bytes[at + 1] == written[1]);
    }
    assert forall|value: u32|
        at + 4 <= bytes.len() && bytes.subrange(at, at + 4) == #[trigger] le32(
            value,
        ) implies le32_at(bytes, at) == value by {
        let written = bytes.subrange(at, at + 4);
        assert(bytes[at] == written[0] && bytes[at + 1] == written[1]);
        assert(bytes[at + 2] == written[2] && bytes[at + 3] == written[3]);
    }
}

/// Appends `value` in two bytes, the higher first.
pub fn push_be16(bytes: &mut Vec<u8>, value: u16)
    ensures
        final(bytes)@ == old(bytes)@ + be16(value),
{
    bytes.push((value / 256) as u8);
    bytes.push((value % 256) as u8);
    assert(bytes@ =~= old(bytes)@ + be16(value));
}

/// Appends `value` in four bytes, the highest first.
pub fn push_be32(bytes: &mut Vec<u8>, value: u32)
    ensures
        final(bytes)@ == old(bytes)@ + be32(value),
{
    bytes.push((value / 0x100_0000) as u8);
    bytes.push((value / 0x1_0000 % 256) as u8);
    bytes.push((value / 0x100 % 256) as u8);
    bytes.push((value % 256) as u8);
    assert(bytes@ =~= old(bytes)@ + be32(value));
}

/// Reads two bytes, the higher first.
pub fn read_be16(bytes: &[u8], at: usize) -> (value: u16)
    requires
        at + 2 <= bytes@.len(),
    ensures
        value == be16_at(bytes@, at as int),
{
    assert(bytes@.len() == bytes.len());
    bytes[at] as u16 * 256 + bytes[at + 1] as u16
}

/// Reads four bytes, the highest first.
pub fn read_be32(bytes: &[u8], at: usize) -> (value: u32)
    requires
        at + 4 <= bytes@.len(),
    ensures
        value == be32_at(bytes@, at as int),
{
    assert(bytes@.len() == bytes.len());
    bytes[at] as u32 * 0x100_0000 + bytes[at + 1] as u32 * 0x1_0000 + bytes[at + 2] as u32 * 0x100
        + bytes[at + 3] as u32
}

/// Reads two bytes, the lower first.
pub fn read_le16(bytes: &[u8], at: usize) -> (value: u16)
    requires
        at + 2 <= bytes@.len(),
    ensures
        value == le16_at(bytes@, at as int),
{
    assert(bytes@.len() == bytes.len());
    bytes[at + 1] as u16 * 256 + bytes[at] as u16
}

/// Reads four bytes, the lowest first.
pub fn read_le32(bytes: &[u8], at: usize) -> (value: u32)
    requires
        at + 4 <= bytes@.len(),
    ensures
        value == le32_at(bytes@, at as int),
{
    assert(bytes@.len() == bytes.len());
    bytes[at + 3] as u32 * 0x100_0000 + bytes[at + 2] as u32 * 0x1_0000 + bytes[at + 1] as u32
        * 0x100 + bytes[at] as u32
}

/// The bytes of a number are its digits to the base 256: the highest first in one order,
/// and the lowest first in the other.
pub proof fn lemma_bytes_are_digits(short: u16, long: u32)
    ensures
        be16(short).len() == 2,
        be16(short)[0] * 256 + be16(short)[1] == short,
        le16(short).len() == 2,
        le16(short)[0] + le16(short)[1] * 256 == short,
        be32(long).len() == 4,
        be32(long)[0] * 16777216 + be32(long)[1] * 65536 + be32(long)[2] * 256 + be32(long)[3]
            == long,
        le32(long).len() == 4,
        le32(long)[0] + le32(long)[1] * 256 + le32(long)[2] * 65536 + le32(long)[3] * 16777216
            == long,
{
}

/// A number is read as the value of its digits to the base 256.
pub proof fn lemma_digits_are_read(bytes: Seq<u8>, at: int)
    ensures
        be16_at(bytes, at) == bytes[at] * 256 + bytes[at + 1],
        le16_at(bytes, at) == bytes[at] + bytes[at + 1] * 256,
        be32_at(bytes, at) == bytes[at] * 16777216 + bytes[at + 1] * 65536 + bytes[at + 2] * 256
            + bytes[at + 3],
        le32_at(bytes, at) == bytes[at] + bytes[at + 1] * 256 + bytes[at + 2] * 65536 + bytes[at
            + 3] * 16777216,
{
}

} // verus!
