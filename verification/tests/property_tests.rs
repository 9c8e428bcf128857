//! Cross-cutting checks on concrete values: round trips for edge-shaped
//! inputs, chunk-splitting invariance, source validation, and the all-COPY
//! shape of patches for unchanged block-aligned inputs.

use patchly::hash::calculate_hash;
use patchly::patch::{apply_patch, generate_patch, generate_patch_with_chunk_size, PatchError};
use patchly::patch_format::{Instruction, ValidationError};

/// Deterministic pseudo-random bytes for larger inputs.
fn pseudo_bytes(len: usize, seed: u64) -> Vec<u8> {
    let mut state = seed;
    let mut out = Vec::with_capacity(len);
    for _ in 0..len {
        state = state.wrapping_mul(6364136223846793005).wrapping_add(1442695040888963407);
        out.push((state >> 56) as u8);
    }
    out
}

#[test]
fn round_trip_edge_shapes() {
    let cases: Vec<(Vec<u8>, Vec<u8>)> = vec![
        (vec![], vec![]),
        (vec![], b"t".to_vec()),
        (b"s".to_vec(), vec![]),
        (b"abc".to_vec(), b"xyz".to_vec()), // both below the block size
        (b"same bytes!!".to_vec(), b"same bytes!!".to_vec()),
        (vec![0x00; 64], vec![0xFF; 64]),
        (pseudo_bytes(4096, 7), pseudo_bytes(4096, 7)),
    ];
    for (source, target) in cases {
        let patch = generate_patch_with_chunk_size(&source, &target, 4);
        assert_eq!(apply_patch(&source, &patch).unwrap(), target);
    }
}

#[test]
fn round_trip_large_input_with_default_chunk_size() {
    let source = pseudo_bytes(3 * 4096 + 123, 11);
    let mut target = source.clone();
    target[5000] ^= 0x80;
    target.extend_from_slice(&pseudo_bytes(500, 13));
    let patch = generate_patch(&source, &target);
    assert_eq!(apply_patch(&source, &patch).unwrap(), target);
}

#[test]
fn round_trip_with_extreme_bytes() {
    let mut source = vec![0x00; 32];
    source.extend_from_slice(&[0xFF; 32]);
    let mut target = vec![0xFF; 16];
    target.extend_from_slice(&source);
    let patch = generate_patch_with_chunk_size(&source, &target, 8);
    assert_eq!(apply_patch(&source, &patch).unwrap(), target);
}

#[test]
fn chunk_splitting_does_not_change_what_applies() {
    // The patch bytes may differ across partitions; their application must not.
    let source = pseudo_bytes(10_000, 3);
    let mut target = source.clone();
    for b in target[2000..2600].iter_mut() {
        *b = b.wrapping_add(1);
    }

    let partitions: [&[usize]; 3] = [&[10_000], &[1, 9_999], &[3000, 3000, 3000, 1000]];
    let mut results = Vec::new();
    for part in partitions {
        let mut builder = patchly::builder::PatchBuilder::new();
        let mut off = 0;
        for len in part {
            builder.add_source_chunk(&source[off..off + len]);
            off += len;
        }
        builder.finalize_source();
        builder.set_target_size(target.len() as u64);
        let mut off = 0;
        for len in part {
            let end = (off + len).min(target.len());
            builder.add_target_chunk(&target[off..end]);
            off = end;
        }
        builder.add_target_chunk(&target[off..]);
        builder.finalize_target();
        let mut bytes = Vec::new();
        while builder.has_output() {
            let chunk = builder.flush_output(4096);
            if chunk.is_empty() {
                break;
            }
            bytes.extend_from_slice(&chunk);
        }

        let mut applier = patchly::applier::PatchApplier::new();
        applier.add_source_chunk(&source);
        applier.set_patch(&bytes);
        applier.prepare().unwrap();
        let mut reconstructed = Vec::new();
        while applier.has_more_output() {
            let chunk = applier.next_output_chunk(999);
            if chunk.is_empty() {
                break;
            }
            reconstructed.extend_from_slice(&chunk);
        }
        results.push(reconstructed);
    }
    for r in &results {
        assert_eq!(r, &target);
    }
}

#[test]
fn source_validation_rejects_wrong_length() {
    let source = b"the true source bytes";
    let target = b"whatever target";
    let patch = generate_patch_with_chunk_size(source, target, 4);
    match apply_patch(b"short", &patch) {
        Err(PatchError::ValidationFailed(ValidationError::SizeMismatch { expected, actual })) => {
            assert_eq!(expected, source.len() as u64);
            assert_eq!(actual, 5);
        }
        other => panic!("expected a size mismatch, got {:?}", other),
    }
}

#[test]
fn source_validation_rejects_wrong_content() {
    let source = b"the true source bytes";
    let wrong = b"the trUe source bytes"; // same length, different content
    let target = b"whatever target";
    let patch = generate_patch_with_chunk_size(source, target, 4);
    match apply_patch(wrong, &patch) {
        Err(PatchError::ValidationFailed(ValidationError::HashMismatch { expected, actual })) => {
            assert_eq!(expected, calculate_hash(source));
            assert_eq!(actual, calculate_hash(wrong));
        }
        other => panic!("expected a hash mismatch, got {:?}", other),
    }
}

#[test]
fn unchanged_aligned_input_yields_copies_only() {
    // For S == T with |S| a multiple of the block size, the patch holds no
    // INSERT at all.
    for blocks in [1usize, 2, 5, 16] {
        let data = pseudo_bytes(blocks * 8, 17);
        let patch = generate_patch_with_chunk_size(&data, &data, 8);
        let stats = patch.stats();
        assert_eq!(stats.insert_count, 0);
        assert_eq!(stats.insert_bytes, 0);
        assert_eq!(stats.copy_bytes, data.len() as u64);
        for i in &patch.instructions {
            assert!(matches!(i, Instruction::Copy { .. }));
        }
        assert_eq!(apply_patch(&data, &patch).unwrap(), data);
    }
}
