//! Concrete end-to-end scenarios, all with block size 4.

use patchly::hash::calculate_hash;
use patchly::patch::{apply_patch, generate_patch_with_chunk_size, PatchError};
use patchly::patch_format::{Instruction, Patch};

#[test]
fn empty_source_inserts_whole_target() {
    let patch = generate_patch_with_chunk_size(b"", b"hello", 4);
    assert_eq!(patch.source_size, 0);
    assert_eq!(patch.source_hash, calculate_hash(b""));
    assert_eq!(
        patch.instructions,
        vec![Instruction::Insert { data: b"hello".to_vec() }]
    );
    assert_eq!(apply_patch(b"", &patch).unwrap(), b"hello");
}

#[test]
fn empty_target_needs_no_instructions() {
    let patch = generate_patch_with_chunk_size(b"hello", b"", 4);
    assert_eq!(patch.target_size, 0);
    assert!(patch.instructions.is_empty());
    assert_eq!(apply_patch(b"hello", &patch).unwrap(), b"");
}

#[test]
fn identical_aligned_input_is_four_copies() {
    let s = b"aaaabbbbccccdddd";
    let patch = generate_patch_with_chunk_size(s, s, 4);
    assert_eq!(
        patch.instructions,
        vec![
            Instruction::Copy { offset: 0, length: 4 },
            Instruction::Copy { offset: 4, length: 4 },
            Instruction::Copy { offset: 8, length: 4 },
            Instruction::Copy { offset: 12, length: 4 },
        ]
    );
    assert_eq!(apply_patch(s, &patch).unwrap(), s);
}

#[test]
fn mixed_inserts_and_copies() {
    let s = b"aaaabbbbccccdddd";
    let t = b"xxxxbbbbyyyycccc";
    let patch = generate_patch_with_chunk_size(s, t, 4);
    assert_eq!(
        patch.instructions,
        vec![
            Instruction::Insert { data: b"xxxx".to_vec() },
            Instruction::Copy { offset: 4, length: 4 },
            Instruction::Insert { data: b"yyyy".to_vec() },
            Instruction::Copy { offset: 8, length: 4 },
        ]
    );
    assert_eq!(apply_patch(s, &patch).unwrap(), t);
}

#[test]
fn unaligned_match_with_fragment_carried_as_insert() {
    let s = b"aaaabbbbccccdddd";
    let t = b"xxbbbbccyyyyyyyy";
    let patch = generate_patch_with_chunk_size(s, t, 4);
    assert_eq!(
        patch.instructions,
        vec![
            Instruction::Insert { data: b"xx".to_vec() },
            Instruction::Copy { offset: 4, length: 4 },
            Instruction::Insert { data: b"ccyyyyyyyy".to_vec() },
        ]
    );
    assert_eq!(apply_patch(s, &patch).unwrap(), t);
}

#[test]
fn malformed_copy_fails_without_output() {
    let source = b"hello";
    let mut patch = Patch::new(4, 5, calculate_hash(source), 100);
    patch.add_copy(0, 100);
    match apply_patch(source, &patch) {
        Err(PatchError::CopyOutOfBounds { instruction_index, offset, length, source_len }) => {
            assert_eq!(instruction_index, 0);
            assert_eq!(offset, 0);
            assert_eq!(length, 100);
            assert_eq!(source_len, 5);
        }
        other => panic!("expected out-of-bounds, got {:?}", other),
    }
}
