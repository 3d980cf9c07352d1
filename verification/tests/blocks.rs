use oni::block::{individual_block_size, Block, GB, KB, MB, TB};
use oni::checksum::{roll_weak_checksum, weak_checksum};
use oni::digest::{bytes_equal, sha256, strong_checksum, strong_checksum_parts};

#[test]
fn test_update_weak_checksum() {
    let data = b"abcd";
    let old_checksum = Block::compute_weak_checksum(data);
    let updated_checksum = Block::update_weak_checksum(old_checksum, b'a', b'e', data.len());

    let expected_updated_checksum = Block::compute_weak_checksum(b"bcde");

    assert_eq!(updated_checksum, expected_updated_checksum);
}

#[test]
fn test_cut_weak_checksum() {
    let checksum = 0xDEADBEEF;
    let expected_cut_checksum = 0xBEEF;
    assert_eq!(Block::cut_weak_checksum(checksum), expected_cut_checksum);
}

#[test]
fn rolling_checksum_matches_full_recomputation() {
    let original = b"abcd";
    let rolled = roll_weak_checksum(weak_checksum(original), b'a', b'e', original.len());

    assert_eq!(rolled, weak_checksum(b"bcde"));
}

#[test]
fn weak_checksum_packs_the_two_sums() {
    // 1 + 2 + 3 = 6, and 3 * 1 + 2 * 2 + 1 * 3 = 10.
    assert_eq!(weak_checksum(&[1, 2, 3]), (10 << 16) | 6);
    assert_eq!(weak_checksum(&[]), 0);
}

#[test]
fn rolling_agrees_with_recomputation_along_a_long_input() {
    let data: Vec<u8> = (0..5000usize).map(|i| (i * 7 % 253) as u8).collect();
    let size = 700;
    let mut rolled = weak_checksum(&data[..size]);
    for at in 1..data.len() - size {
        rolled = roll_weak_checksum(rolled, data[at - 1], data[at + size - 1], size);
        assert_eq!(rolled, weak_checksum(&data[at..at + size]));
    }
}

#[test]
fn block_sizes_follow_the_square_root() {
    assert_eq!(individual_block_size(0), 4096);
    assert_eq!(individual_block_size(4096 * 4096 + 4096), 4096);
    assert_eq!(individual_block_size(4096 * 4096 + 4097), 4097);
    assert_eq!(individual_block_size(100_000_000), 10_000);
    assert_eq!(individual_block_size(u64::MAX), 4 * 1024 * 1024);
}

#[test]
fn block_sizes_equal_the_rounded_float_root() {
    for step in 0..2000u64 {
        let len = step * step * 4_400_017 + step * 31;
        let rounded = ((len as f64).sqrt().round() as usize).clamp(4096, 4 * 1024 * 1024);
        assert_eq!(individual_block_size(len), rounded);
    }
}

#[test]
fn both_ways_of_choosing_a_block_size_agree() {
    assert_eq!(Block::calculate_block_size(100_000_000, 400_000_000), 10_000);
    assert_eq!(Block::calculate_block_size(400_000_000, 100_000_000), 10_000);
    assert_eq!(
        oni::strategy::fixed::choose_block_size(400_000_000, 100_000_000),
        10_000
    );
}

#[test]
fn size_units_are_powers_of_1024() {
    assert_eq!(KB, 1024);
    assert_eq!(MB, 1024 * 1024);
    assert_eq!(GB, 1024 * 1024 * 1024);
    assert_eq!(TB, 1024 * 1024 * 1024 * 1024);
}

#[test]
fn blocks_show_their_text() {
    assert_eq!(Block::from(&b"plain"[..]).to_string(), "plain");
    assert_eq!(Block(vec![b'a', 0xFF, b'b']).to_string(), "a\u{FFFD}b");
}

#[test]
fn strong_checksums_are_the_published_ones() {
    let sha = sha256(b"abc");
    assert_eq!(&sha[..4], &[0xba, 0x78, 0x16, 0xbf]);
    assert_eq!(Block::compute_strong_checksum(b"abc"), sha);

    let blake = strong_checksum(b"");
    assert_eq!(&blake[..4], &[0xaf, 0x13, 0x49, 0xb9]);
}

#[test]
fn hashing_in_parts_is_hashing_the_whole() {
    assert_eq!(strong_checksum_parts(b"left", b"right"), strong_checksum(b"leftright"));
    assert_ne!(strong_checksum(b"left"), strong_checksum(b"right"));
}

#[test]
fn byte_strings_are_compared_as_a_whole() {
    assert!(bytes_equal(b"same", b"same"));
    assert!(!bytes_equal(b"same", b"sama"));
    assert!(!bytes_equal(b"same", b"same longer"));
}
