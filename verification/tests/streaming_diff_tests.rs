use patchly::block_index::BlockIndex;
use patchly::patch_format::Instruction;
use patchly::streaming_diff::StreamingDiff;

fn build_index(data: &[u8], block_size: usize) -> BlockIndex {
    let mut index = BlockIndex::with_block_size(block_size);
    index.add_chunk(data);
    index.finalize();
    index
}

#[test]
fn test_identical_data() {
    let data = b"aaaabbbbccccdddd";
    let index = build_index(data, 4);

    let mut diff = StreamingDiff::new(index, data.len() as u64);
    diff.process_target_chunk(data);
    let instructions = diff.finalize();

    // Should be all COPY instructions
    assert_eq!(instructions.len(), 4);
    for instr in &instructions {
        assert!(matches!(instr, Instruction::Copy { .. }));
    }
}

#[test]
fn test_completelty_different() {
    let source = b"aaaabbbbccccdddd";
    let target = b"eeeeffffgggghhhh";
    let index = build_index(source, 4);

    let mut diff = StreamingDiff::new(index, source.len() as u64);
    diff.process_target_chunk(target);
    let instructions = diff.finalize();

    // Should be all INSERT (not matches)
    assert_eq!(instructions.len(), 1);
    if let Instruction::Insert { data } = &instructions[0] {
        assert_eq!(data, target);
    } else {
        panic!("Expected INSERT instruction");
    }
}

#[test]
fn streaming_diff_test_partial_match() {
    let source = b"aaaabbbbccccdddd";
    let target = b"xxxxbbbbyyyycccc";
    let index = build_index(source, 4);

    let mut diff = StreamingDiff::new(index, source.len() as u64);
    diff.process_target_chunk(target);
    let instructions = diff.finalize();

    // Should have: INSERT(xxxx), COPY(bbbb), INSERT(yyyy), COPY(cccc)
    assert!(instructions.len() >= 3);

    let has_copy = instructions
        .iter()
        .any(|i| matches!(i, Instruction::Copy { .. }));
    let has_insert = instructions
        .iter()
        .any(|i| matches!(i, Instruction::Insert { .. }));
    assert!(has_copy);
    assert!(has_insert);
}

#[test]
fn test_chunked_processing() {
    let source = b"aaaabbbbccccdddd";
    let index = build_index(source, 4);

    let mut diff = StreamingDiff::new(index, source.len() as u64);
    diff.process_target_chunk(b"aaaa");
    diff.process_target_chunk(b"bbbb");
    diff.process_target_chunk(b"cccc");
    diff.process_target_chunk(b"dddd");

    let instruction = diff.finalize();
    assert_eq!(instruction.len(), 4);
}

#[test]
fn test_unaligned_chunks() {
    let source = b"aaaabbbbccccdddd";
    let index = build_index(source, 4);

    let mut diff = StreamingDiff::new(index, source.len() as u64);
    diff.process_target_chunk(b"aa");
    diff.process_target_chunk(b"aabb");
    diff.process_target_chunk(b"bbcc");
    diff.process_target_chunk(b"ccdd");
    diff.process_target_chunk(b"dd");

    let instructions = diff.finalize();
    assert_eq!(instructions.len(), 4);
}

#[test]
fn streaming_diff_test_empty_target() {
    let source = b"aaaabbbb";
    let index = build_index(source, 4);

    let diff = StreamingDiff::new(index, source.len() as u64);
    let instructions = diff.finalize();
    assert!(instructions.is_empty());
}

#[test]
fn test_target_smaller_that_block() {
    let source = b"aaaabbbb";
    let target = b"xx";
    let index = build_index(source, 4);

    let mut diff = StreamingDiff::new(index, source.len() as u64);
    diff.process_target_chunk(target);
    let instructions = diff.finalize();

    // Should be single INSERT
    assert_eq!(instructions.len(), 1);
    if let Instruction::Insert { data } = &instructions[0] {
        assert_eq!(data, b"xx");
    }
}

#[test]
fn test_instruction_count() {
    let source = b"aaaabbbb";
    let index = build_index(source, 4);

    let mut diff = StreamingDiff::new(index, source.len() as u64);
    assert_eq!(diff.instruction_count(), 0);

    diff.process_target_chunk(b"aaaa");
    assert_eq!(diff.instruction_count(), 1);

    diff.process_target_chunk(b"bbbb");
    assert_eq!(diff.instruction_count(), 2);
}

#[test]
fn bytes_processed_tracks_drained_output() {
    let source = b"aaaabbbb";
    let index = build_index(source, 4);

    let mut diff = StreamingDiff::new(index, source.len() as u64);
    assert_eq!(diff.bytes_processed(), 0);
    diff.process_target_chunk(b"aaaazz");
    // One block matched; the two trailing bytes stay buffered.
    assert_eq!(diff.bytes_processed(), 4);
}

#[test]
fn copies_carry_source_offsets() {
    let source = b"aaaabbbbccccdddd";
    let index = build_index(source, 4);

    let mut diff = StreamingDiff::new(index, source.len() as u64);
    diff.process_target_chunk(b"ddddaaaa");
    let instructions = diff.finalize();
    assert_eq!(
        instructions,
        vec![
            Instruction::Copy { offset: 12, length: 4 },
            Instruction::Copy { offset: 0, length: 4 },
        ]
    );
}
