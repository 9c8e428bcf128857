use patchly::block_index::BlockIndex;
use patchly::rolling_hash::RollingHash;

#[test]
fn test_index_and_lookup() {
    let data = vec![0u8; 8192]; // Two blocks of 4KB
    let mut index = BlockIndex::with_block_size(4096);
    index.add_chunk(&data);
    index.finalize();

    // Both blocks have same content, so same hashes
    let mut hasher = RollingHash::new(4096);
    let hash = hasher.hash_chunk(&data[0..4096]);

    let entries = index.lookup(hash);
    assert_eq!(entries.len(), 2);
    assert_eq!(entries[0].offset, 0);
    assert_eq!(entries[1].offset, 4096);
}

#[test]
fn test_verified_match_success() {
    let data = vec![42u8; 4096];
    let mut index = BlockIndex::with_block_size(4096);
    index.add_chunk(&data);
    index.finalize();

    let mut hasher = RollingHash::new(4096);
    let weak_hash = hasher.hash_chunk(&data);

    // Same data should find a match
    let result = index.find_verified_match(weak_hash, &data);
    assert_eq!(result, Some(0));
}

#[test]
fn test_verified_match_collision_rejected() {
    let data1 = vec![42u8; 4096];
    let mut index = BlockIndex::with_block_size(4096);
    index.add_chunk(&data1);
    index.finalize();

    // Create different data with same weak hash (simulated collision)
    let mut hasher = RollingHash::new(4096);
    let weak_hash = hasher.hash_chunk(&data1);

    // Different data should NOT match even if weak hash matches
    let different_data = vec![99u8; 4096];
    let result = index.find_verified_match(weak_hash, &different_data);
    assert_eq!(result, None);
}

#[test]
fn test_pending_bytes() {
    let mut index = BlockIndex::with_block_size(4096);
    index.add_chunk(&[1u8; 2048]); // Half a block
    assert_eq!(index.bytes_indexed(), 0); // Nothing indexed yet

    index.add_chunk(&[2u8; 2048]); // Complete the block
    assert_eq!(index.bytes_indexed(), 4096); // One block indexed
}

#[test]
fn test_empty_lookup() {
    let index = BlockIndex::new();
    assert!(index.lookup(12345).is_empty());
    assert_eq!(index.find_verified_match(12345, &[0u8; 4096]), None);
}

#[test]
fn finalize_reports_total_and_drops_tail() {
    let mut index = BlockIndex::with_block_size(4);
    index.add_chunk(b"abcdefg"); // one full block + 3 retained bytes
    assert_eq!(index.finalize(), 4);
    assert_eq!(index.block_size(), 4);
    assert_eq!(index.unique_hash_count(), 1);
}

#[test]
fn entries_record_strong_hashes() {
    let mut index = BlockIndex::with_block_size(4);
    index.add_chunk(b"aaaabbbb");
    index.finalize();

    let mut hasher = RollingHash::new(4);
    let weak = hasher.hash_chunk(b"aaaa");
    let entries = index.lookup(weak);
    assert_eq!(entries.len(), 1);
    assert_eq!(entries[0].offset, 0);
    assert_eq!(entries[0].strong_hash, patchly::hash::calculate_hash(b"aaaa"));
}
