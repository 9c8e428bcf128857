use patchly::matcher::BlockMatcher;

#[test]
fn matcher_test_empty_source() {
    let matcher = BlockMatcher::new(&[], 4);
    let matches = matcher.find_matches(b"hello");
    assert!(matches.is_empty());
}

#[test]
fn matcher_test_empty_target() {
    let matcher = BlockMatcher::new(b"hello world", 4);
    let matches = matcher.find_matches(&[]);
    assert!(matches.is_empty());
}

#[test]
fn matcher_test_source_smaller_than_chunk() {
    let matcher = BlockMatcher::new(b"hi", 4);
    assert_eq!(matcher.signature_count(), 0);
}

#[test]
fn matcher_test_identical_files() {
    let data = b"aaaabbbbccccdddd"; // 16 bytes, 4 chunks of 4
    let matcher = BlockMatcher::new(data, 4);
    let matches = matcher.find_matches(data);

    // Should find 4 matches at positions 0, 4, 8, 12
    assert_eq!(matches.len(), 4);
    assert_eq!(matches[0].source_offset, 0);
    assert_eq!(matches[0].target_offset, 0);
}

#[test]
fn matcher_test_partial_match() {
    let source = b"aaaabbbbccccdddd";
    let target = b"xxxxbbbbyyyycccc"; // "bbbb" and "cccc" should match

    let matcher = BlockMatcher::new(source, 4);
    let matches = matcher.find_matches(target);

    // Should find "bbbb" at target offset 4 (source offset 4)
    // Should find "cccc" at target offset 12 (source offset 8)
    assert_eq!(matches.len(), 2);

    let bbbb_match = matches.iter().find(|m| m.target_offset == 4).unwrap();
    assert_eq!(bbbb_match.source_offset, 4);

    let cccc_match = matches.iter().find(|m| m.target_offset == 12).unwrap();
    assert_eq!(cccc_match.source_offset, 8);
}

#[test]
fn test_no_match() {
    let source = b"aaaabbbbccccdddd";
    let target = b"eeeeffffgggghhhh";

    let matcher = BlockMatcher::new(source, 4);
    let matches = matcher.find_matches(target);

    assert!(matches.is_empty());
}

#[test]
fn test_match_at_different_offset() {
    // Source has "test" at offset 0
    // Target has "test" at offset 8
    let source = b"testxxxxyyyyzzzz";
    let target = b"aaaabbbbtest0000";

    let matcher = BlockMatcher::new(source, 4);
    let matches = matcher.find_matches(target);

    assert_eq!(matches.len(), 1);
    assert_eq!(matches[0].source_offset, 0); // "test" is at offset 0 in source
    assert_eq!(matches[0].target_offset, 8); // "test" is at offset 8 in target
}

#[test]
fn test_rolling_finds_unaligned_match() {
    // Source chunks at 0, 4, 8, 12
    let source = b"aaaabbbbccccdddd";
    // Target: "xxbbbbcc..." - "bbbb" starts at offset 2 (unaligned!)
    let target = b"xxbbbbccyyyyyyyy";

    let matcher = BlockMatcher::new(source, 4);
    let matches = matcher.find_matches(target);

    // Should find "bbbb" even though it's at unaligned position
    let bbbb_match = matches.iter().find(|m| m.source_offset == 4);
    assert!(bbbb_match.is_some());
    assert_eq!(bbbb_match.unwrap().target_offset, 2);
}

#[test]
fn test_match_length() {
    let source = b"testdata";
    let target = b"testdata";

    let matcher = BlockMatcher::new(source, 4);
    let matches = matcher.find_matches(target);

    // All matches should have length equal to chunk_size
    for m in &matches {
        assert_eq!(m.length, 4);
    }
}

#[test]
fn matches_are_byte_verified() {
    let source = b"aaaabbbbccccdddd";
    let target = b"ccccaaaa";
    let matcher = BlockMatcher::new(source, 4);
    let matches = matcher.find_matches(target);
    for m in &matches {
        assert_eq!(
            &source[m.source_offset..m.source_offset + m.length],
            &target[m.target_offset..m.target_offset + m.length]
        );
    }
}
