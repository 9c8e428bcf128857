use patchly::applier::{ApplyError, PatchApplier};
use patchly::builder::PatchBuilder;
use patchly::hash::calculate_hash;
use patchly::patch_format::{Patch, ValidationError};

fn collect_patch(builder: &mut PatchBuilder) -> Vec<u8> {
    let mut out = Vec::new();
    while builder.has_output() {
        let chunk = builder.flush_output(64);
        if chunk.is_empty() {
            break;
        }
        out.extend_from_slice(&chunk);
    }
    out
}

fn collect_target(applier: &mut PatchApplier) -> Vec<u8> {
    let mut out = Vec::new();
    while applier.has_more_output() {
        let chunk = applier.next_output_chunk(7);
        if chunk.is_empty() {
            break;
        }
        out.extend_from_slice(&chunk);
    }
    out
}

#[test]
fn test_identical_files_detection() {
    let data = b"identical content here";

    let mut builder = PatchBuilder::new();
    builder.add_source_chunk(data);
    builder.finalize_source();
    builder.add_target_chunk(data);

    assert!(builder.are_files_identical());
}

#[test]
fn test_different_files_detection() {
    let source = b"original content";
    let target = b"modified content";

    let mut builder = PatchBuilder::new();
    builder.add_source_chunk(source);
    builder.finalize_source();
    builder.add_target_chunk(target);

    assert!(!builder.are_files_identical());
}

#[test]
fn test_reset() {
    let mut builder = PatchBuilder::new();
    builder.add_source_chunk(b"test");
    builder.finalize_source();
    builder.add_target_chunk(b"data");

    assert!(builder.source_size() > 0);

    builder.reset();

    assert_eq!(builder.source_size(), 0);
    assert_eq!(builder.target_size(), 0);
}

#[test]
fn builder_stream_is_a_parseable_patch() {
    let source = b"some source bytes over here";
    let target = b"some target bytes over there";

    let mut builder = PatchBuilder::new();
    builder.add_source_chunk(source);
    builder.finalize_source();
    builder.set_target_size(target.len() as u64);
    builder.add_target_chunk(target);
    builder.finalize_target();

    let bytes = collect_patch(&mut builder);
    let patch = Patch::deserialize(&bytes).unwrap();
    assert_eq!(patch.source_size, source.len() as u64);
    assert_eq!(patch.source_hash, calculate_hash(source));
    assert_eq!(patch.target_size, target.len() as u64);
    assert_eq!(patch.chunk_size, 4096);
}

#[test]
fn builder_and_applier_round_trip_in_chunks() {
    // A multi-block source with a change in the middle, both sides streamed
    // in uneven chunks.
    let mut source = Vec::new();
    for k in 0u32..2048 {
        source.extend_from_slice(&(k.wrapping_mul(2654435761)).to_le_bytes());
    }
    let mut target = source.clone();
    for b in target[5000..5200].iter_mut() {
        *b ^= 0x5A;
    }
    target.extend_from_slice(b"a fresh tail appended after the last block");

    let mut builder = PatchBuilder::new();
    for chunk in source.chunks(1000) {
        builder.add_source_chunk(chunk);
    }
    builder.finalize_source();
    builder.set_target_size(target.len() as u64);
    for chunk in target.chunks(777) {
        builder.add_target_chunk(chunk);
    }
    builder.finalize_target();

    let mut patch_bytes = Vec::new();
    while builder.has_output() {
        let chunk = builder.flush_output(512);
        if chunk.is_empty() {
            break;
        }
        patch_bytes.extend_from_slice(&chunk);
    }

    let mut applier = PatchApplier::new();
    for chunk in source.chunks(900) {
        applier.add_source_chunk(chunk);
    }
    applier.set_patch(&patch_bytes);
    assert_eq!(applier.validate_source(), Ok(true));
    assert_eq!(applier.expected_source_size(), Ok(source.len() as u64));
    assert_eq!(applier.expected_target_size(), Ok(target.len() as u64));
    applier.prepare().unwrap();
    assert_eq!(applier.remaining_output_size(), target.len() as u64);

    let mut reconstructed = Vec::new();
    while applier.has_more_output() {
        let chunk = applier.next_output_chunk(1024);
        if chunk.is_empty() {
            break;
        }
        reconstructed.extend_from_slice(&chunk);
    }
    assert_eq!(reconstructed, target);
    assert_eq!(applier.remaining_output_size(), 0);
}

#[test]
fn applier_rejects_wrong_source() {
    let source = b"the right source, sixteen+";
    let mut builder = PatchBuilder::new();
    builder.add_source_chunk(source);
    builder.finalize_source();
    builder.set_target_size(3);
    builder.add_target_chunk(b"abc");
    builder.finalize_target();
    let patch_bytes = collect_patch(&mut builder);

    let mut applier = PatchApplier::new();
    applier.add_source_chunk(b"the wrong source, sixteen+");
    applier.set_patch(&patch_bytes);
    match applier.prepare() {
        Err(ApplyError::Validation(ValidationError::HashMismatch { .. })) => {}
        other => panic!("expected a hash mismatch, got {:?}", other),
    }
}

#[test]
fn applier_rejects_wrong_source_size() {
    let source = b"some source";
    let mut builder = PatchBuilder::new();
    builder.add_source_chunk(source);
    builder.finalize_source();
    builder.set_target_size(1);
    builder.add_target_chunk(b"x");
    builder.finalize_target();
    let patch_bytes = collect_patch(&mut builder);

    let mut applier = PatchApplier::new();
    applier.add_source_chunk(b"short");
    applier.set_patch(&patch_bytes);
    match applier.prepare() {
        Err(ApplyError::Validation(ValidationError::SizeMismatch { expected, actual })) => {
            assert_eq!(expected, source.len() as u64);
            assert_eq!(actual, 5);
        }
        other => panic!("expected a size mismatch, got {:?}", other),
    }
}

#[test]
fn applier_rejects_copy_out_of_bounds() {
    let source = b"hello";
    let mut patch = Patch::new(4, 5, calculate_hash(source), 100);
    patch.add_copy(0, 100);
    let bytes = patch.serialize();

    let mut applier = PatchApplier::new();
    applier.add_source_chunk(source);
    applier.set_patch(&bytes);
    match applier.prepare() {
        Err(ApplyError::CopyOutOfBounds { instruction_index, offset, length, source_len }) => {
            assert_eq!(instruction_index, 0);
            assert_eq!(offset, 0);
            assert_eq!(length, 100);
            assert_eq!(source_len, 5);
        }
        other => panic!("expected out-of-bounds, got {:?}", other),
    }
}

#[test]
fn applier_rejects_target_size_mismatch() {
    let source = b"hello";
    let mut patch = Patch::new(4, 5, calculate_hash(source), 100);
    patch.add_copy(0, 5);
    let bytes = patch.serialize();

    let mut applier = PatchApplier::new();
    applier.add_source_chunk(source);
    applier.set_patch(&bytes);
    match applier.prepare() {
        Err(ApplyError::TargetSizeMismatch { expected, actual }) => {
            assert_eq!(expected, 100);
            assert_eq!(actual, 5);
        }
        other => panic!("expected a target size mismatch, got {:?}", other),
    }
}

#[test]
fn applier_requires_a_loaded_patch() {
    let mut applier = PatchApplier::new();
    assert_eq!(applier.prepare(), Err(ApplyError::PatchNotLoaded));
    assert_eq!(applier.validate_source(), Err(ApplyError::PatchNotLoaded));
    assert!(!applier.has_more_output());
    assert_eq!(applier.next_output_chunk(10), Vec::<u8>::new());
}

#[test]
fn applier_patch_chunks_and_reset() {
    let source = b"stream the patch in";
    let mut builder = PatchBuilder::new();
    builder.add_source_chunk(source);
    builder.finalize_source();
    builder.set_target_size(2);
    builder.add_target_chunk(b"ok");
    builder.finalize_target();
    let patch_bytes = collect_patch(&mut builder);

    let mut applier = PatchApplier::new();
    applier.add_source_chunk(source);
    for chunk in patch_bytes.chunks(11) {
        applier.add_patch_chunk(chunk);
    }
    applier.finalize_patch().unwrap();
    applier.prepare().unwrap();
    assert_eq!(collect_target(&mut applier), b"ok");

    applier.reset();
    assert_eq!(applier.source_size(), 0);
    assert!(!applier.has_more_output());
}

#[test]
fn finalize_patch_needs_a_whole_header() {
    let mut applier = PatchApplier::new();
    applier.add_patch_chunk(b"PTCH");
    assert!(applier.finalize_patch().is_err());
}

#[test]
fn builder_source_ignored_after_finalize() {
    let mut builder = PatchBuilder::new();
    builder.add_source_chunk(b"counted");
    builder.finalize_source();
    builder.add_source_chunk(b"ignored");
    assert_eq!(builder.source_size(), 7);
}

#[test]
fn builder_pending_output_drains() {
    let mut builder = PatchBuilder::new();
    builder.add_source_chunk(b"source");
    builder.finalize_source();
    builder.set_target_size(6);
    builder.add_target_chunk(b"target");
    builder.finalize_target();

    assert!(builder.has_output());
    let first = builder.flush_output(33);
    assert_eq!(first.len(), 33); // exactly the header
    let rest = builder.flush_output(1024);
    assert!(!rest.is_empty());
    assert!(!builder.has_output());
    assert_eq!(builder.pending_output_size(), 0);
}
