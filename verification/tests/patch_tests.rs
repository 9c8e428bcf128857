use patchly::hash::calculate_hash;
use patchly::matcher::BlockMatch;
use patchly::patch::{
    apply_patch, generate_patch_with_chunk_size, optimize_macthes, PatchError,
};
use patchly::patch_format::{Instruction, Patch};

#[test]
fn patch_test_empty_source() {
    let patch = generate_patch_with_chunk_size(&[], b"hello", 4);

    assert_eq!(patch.instructions.len(), 1);
    assert_eq!(patch.source_size, 0);
    match &patch.instructions[0] {
        Instruction::Insert { data } => assert_eq!(data, b"hello"),
        _ => panic!("Expected Insert"),
    }
}

#[test]
fn patch_test_empty_target() {
    let patch = generate_patch_with_chunk_size(b"hello world", &[], 4);

    assert!(patch.instructions.is_empty());
    assert_eq!(patch.target_size, 0);
}

#[test]
fn patch_test_identical_files() {
    let data = b"aaaabbbbccccdddd"; // 16 bytes
    let patch = generate_patch_with_chunk_size(data, data, 4);

    // Should be all COPY instructions
    let stats = patch.stats();
    assert_eq!(stats.insert_count, 0);
    assert!(stats.copy_count > 0);
    assert_eq!(stats.copy_bytes, 16);
}

#[test]
fn test_completely_different() {
    let source = b"aaaabbbbccccdddd";
    let target = b"eeeeffffgggghhhh";

    let patch = generate_patch_with_chunk_size(source, target, 4);

    // Should be one INSERT of entire target
    assert_eq!(patch.instructions.len(), 1);
    match &patch.instructions[0] {
        Instruction::Insert { data } => assert_eq!(data, target),
        _ => panic!("Expected Insert"),
    }
}

#[test]
fn test_partial_match_at_start() {
    // Source: "testxxxx"
    // Target: "testyyyy"
    // "test" should match, "yyyy" should be inserted
    let source = b"testxxxx";
    let target = b"testyyyy";

    let patch = generate_patch_with_chunk_size(source, target, 4);

    let stats = patch.stats();
    assert_eq!(stats.copy_bytes, 4); // "test"
    assert_eq!(stats.insert_bytes, 4); // "yyyy"
}

#[test]
fn test_partial_match_at_end() {
    // Source: "xxxxtest"
    // target: "yyyytest"
    let source = b"xxxxtest";
    let target = b"yyyytest";

    let patch = generate_patch_with_chunk_size(source, target, 4);

    let stats = patch.stats();
    assert_eq!(stats.copy_bytes, 4); // "test"
    assert_eq!(stats.insert_bytes, 4); // "yyyy"
}

#[test]
fn test_insert_in_middle() {
    // Source: "aaaabbbb";
    // Target: "aaaaNEWWbbbb";
    let source = b"aaaabbbb";
    let target = b"aaaaNEWWbbbb"; // "NEWW" is a bytes to align

    let patch = generate_patch_with_chunk_size(source, target, 4);

    // Should have: COPY(aaaa) + INSERT(NEWW) + COPY(bbbb)
    let stats = patch.stats();
    assert_eq!(stats.copy_bytes, 8); // "aaaa" + "bbbb"
    assert_eq!(stats.insert_bytes, 4); // "NEWW"
}

#[test]
fn patch_test_source_smaller_than_chunk() {
    let source = b"hi"; // 2 bytes, smaller than chunk
    let target = b"hello";

    let patch = generate_patch_with_chunk_size(source, target, 4);

    // Can't match, should insert all
    assert_eq!(patch.instructions.len(), 1);
    match &patch.instructions[0] {
        Instruction::Insert { data } => assert_eq!(data, b"hello"),
        _ => panic!("Expected Insert"),
    }
}

#[test]
fn test_target_size_recorded() {
    let source = b"aaaabbbb";
    let target = b"aaaabbbbcccc";

    let patch = generate_patch_with_chunk_size(source, target, 4);

    assert_eq!(patch.target_size, 12);
}

#[test]
fn test_source_hash_recorded() {
    let source = b"aaaabbbb";
    let target = b"aaaabbbbcccc";

    let patch = generate_patch_with_chunk_size(source, target, 4);

    assert_eq!(patch.source_size, 8);
    assert_eq!(patch.source_hash, calculate_hash(source));
}

#[test]
fn test_optimize_matches_no_overflap() {
    let matches = vec![
        BlockMatch {
            source_offset: 0,
            target_offset: 0,
            length: 4,
        },
        BlockMatch {
            source_offset: 4,
            target_offset: 8,
            length: 4,
        },
    ];

    let optimized = optimize_macthes(&matches);
    assert_eq!(optimized.len(), 2);
}

#[test]
fn test_optimize_matches_with_overlap() {
    let matches = vec![
        BlockMatch {
            source_offset: 0,
            target_offset: 0,
            length: 4,
        },
        BlockMatch {
            source_offset: 4,
            target_offset: 2,
            length: 4,
        },
    ];

    let optimized = optimize_macthes(&matches);
    // Should keep first, skip second due to overlap
    assert_eq!(optimized.len(), 1);
    assert_eq!(optimized[0].target_offset, 0);
}

#[test]
fn test_chunk_size_stored_in_patch() {
    let patch = generate_patch_with_chunk_size(b"aaaabbbb", b"aaaabbbb", 4);
    assert_eq!(patch.chunk_size, 4);
}

#[test]
fn test_apply_empty_patch() {
    let source = b"hello";
    let patch = Patch::new(4, source.len() as u64, calculate_hash(source), 0);

    let result = apply_patch(source, &patch).unwrap();
    assert!(result.is_empty());
}

#[test]
fn test_apply_insert_only() {
    let source = b"";
    let mut patch = Patch::new(4, 0, calculate_hash(source), 5);
    patch.add_insert(b"hello".to_vec());

    let result = apply_patch(source, &patch).unwrap();
    assert_eq!(result, b"hello");
}

#[test]
fn test_apply_copy_only() {
    let source = b"hello world";
    let mut patch = Patch::new(4, source.len() as u64, calculate_hash(source), 5);
    patch.add_copy(0, 5); // Copy "hello"

    let result = apply_patch(source, &patch).unwrap();
    assert_eq!(result, b"hello");
}

#[test]
fn test_apply_mixed_instructions() {
    let source = b"AAAA....BBBB";
    let mut patch = Patch::new(4, source.len() as u64, calculate_hash(source), 12);
    patch.add_copy(0, 4); // "AAAA"
    patch.add_insert(b"NEW!".to_vec()); // "NEW!"
    patch.add_copy(8, 4); // "BBBB"

    let result = apply_patch(source, &patch).unwrap();
    assert_eq!(result, b"AAAANEW!BBBB");
}

#[test]
fn test_apply_copy_out_of_bounds() {
    let source = b"short";
    let mut patch = Patch::new(4, source.len() as u64, calculate_hash(source), 10);
    patch.add_copy(0, 100); // Way to long!

    let result = apply_patch(source, &patch);
    assert!(result.is_err());
    match result.unwrap_err() {
        PatchError::CopyOutOfBounds { .. } => {}
        _ => panic!("Expected CopyOutBounds error"),
    }
}

#[test]
fn test_apply_size_mismatch() {
    let source = b"hello";
    let mut patch = Patch::new(4, source.len() as u64, calculate_hash(source), 100); // Claims target is 100 bytes
    patch.add_copy(0, 5);

    let result = apply_patch(source, &patch);
    assert!(result.is_err());
    match result.unwrap_err() {
        PatchError::SizeMismatch {
            expected: 100,
            actual: 5,
        } => {}
        _ => panic!("Expected SizeMismatch error"),
    }
}

#[test]
fn test_apply_wrong_source_file() {
    let correct_source = b"correct file";
    let wrong_source = b"wrong file!!";

    let mut patch = Patch::new(
        4,
        correct_source.len() as u64,
        calculate_hash(correct_source),
        5,
    );
    patch.add_insert(b"hello".to_vec());

    // Try to apply with wrong source
    let result = apply_patch(wrong_source, &patch);
    assert!(result.is_err());
    match result.unwrap_err() {
        PatchError::ValidationFailed(_) => {}
        _ => panic!("Expected ValidationFailed error"),
    }
}

#[test]
fn test_roundtrip_generate_and_apply() {
    let source = b"aaaabbbbccccdddd";
    let target = b"aaaaNEWWccccdddd"; // Changed "bbbb" to "NEWW"

    // Generate patch
    let patch = generate_patch_with_chunk_size(source, target, 4);

    // Apply patch
    let reconstructed = apply_patch(source, &patch).unwrap();

    // Should get back the target
    assert_eq!(reconstructed, target);
}

#[test]
fn test_roundtrip_with_serialize() {
    let source = b"originaldatahere";
    let target = b"originalNEWWhere!";

    // Generate patch
    let patch = generate_patch_with_chunk_size(source, target, 4);

    // Serialize and deserialize
    let bytes = patch.serialize();
    let restored_patch = Patch::deserialize(&bytes).unwrap();

    // Apply restored patch
    let reconstructed = apply_patch(source, &restored_patch).unwrap();

    assert_eq!(reconstructed, target);
}

#[test]
fn test_roundtrip_indentical_files() {
    let data = b"testdatatestdata";

    let patch = generate_patch_with_chunk_size(data, data, 4);
    let reconstructred = apply_patch(data, &patch).unwrap();

    assert_eq!(reconstructred, data);
}

#[test]
fn test_roundtrip_completely_new() {
    let source = b"olddata!olddata!";
    let target = b"newstuffnewstuff";

    let patch = generate_patch_with_chunk_size(source, target, 4);
    let recontsructured = apply_patch(source, &patch).unwrap();

    assert_eq!(recontsructured, target);
}
