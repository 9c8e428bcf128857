use patchly::patch_format::{
    FormatError, Instruction, Patch, PatchMetadata, ParsedInstruction, ValidationError,
};

#[test]
fn test_new_patch() {
    let patch = Patch::new(4096, 1000, 12345, 2000);
    assert_eq!(patch.chunk_size, 4096);
    assert_eq!(patch.source_size, 1000);
    assert_eq!(patch.source_hash, 12345);
    assert_eq!(patch.target_size, 2000);
    assert!(patch.instructions.is_empty());
}

#[test]
fn test_add_copy() {
    let mut patch = Patch::new(4096, 100, 0, 100);
    patch.add_copy(100, 50);

    assert_eq!(patch.instructions.len(), 1);
    assert_eq!(
        patch.instructions[0],
        Instruction::Copy {
            offset: 100,
            length: 50
        }
    );
}

#[test]
fn test_add_insert() {
    let mut patch = Patch::new(4096, 100, 0, 100);
    patch.add_insert(vec![1, 2, 3, 4]);

    assert_eq!(patch.instructions.len(), 1);
    assert_eq!(
        patch.instructions[0],
        Instruction::Insert {
            data: vec![1, 2, 3, 4]
        }
    );
}

#[test]
fn test_add_empty_insert_ignored() {
    let mut patch = Patch::new(4096, 100, 0, 100);
    patch.add_insert(vec![]);

    assert!(patch.instructions.is_empty());
}

#[test]
fn test_serialize_deserialize_empty() {
    let patch = Patch::new(4096, 12345, 0xABCD, 67890);
    let bytes = patch.serialize();
    let restored = Patch::deserialize(&bytes).unwrap();

    assert_eq!(restored.chunk_size, 4096);
    assert_eq!(restored.source_size, 12345);
    assert_eq!(restored.source_hash, 0xABCD);
    assert_eq!(restored.target_size, 67890);
    assert!(restored.instructions.is_empty());
}

#[test]
fn test_serialize_deserialize_with_instructions() {
    let mut patch = Patch::new(1024, 500, 0x1234, 5000);
    patch.add_copy(0, 100);
    patch.add_insert(vec![0xDE, 0xAD, 0xBE, 0xEF]);
    patch.add_copy(200, 300);
    patch.add_insert(vec![1, 2, 3]);

    let bytes = patch.serialize();
    let restored = Patch::deserialize(&bytes).unwrap();

    assert_eq!(restored.chunk_size, 1024);
    assert_eq!(restored.source_size, 500);
    assert_eq!(restored.source_hash, 0x1234);
    assert_eq!(restored.target_size, 5000);
    assert_eq!(restored.instructions.len(), 4);
    assert_eq!(restored.instructions, patch.instructions);
}

#[test]
fn test_invalid_magic() {
    let bad_data = b"BADM\x02\x00\x10\x00\x00\x00\x00\x00\x00\x00\x00\x00\x00\x00\x00\x00\x00\x00\x00\x00\x00\x00\x00\x00\x00\x00\x00\x00\x00\x00\x00";
    let result = Patch::deserialize(bad_data);

    assert!(result.is_err());
    assert_eq!(result.unwrap_err(), FormatError::BadMagic);
}

#[test]
fn test_invalid_version() {
    let bad_data = b"PTCH\x99\x00\x10\x00\x00\x00\x00\x00\x00\x00\x00\x00\x00\x00\x00\x00\x00\x00\x00\x00\x00\x00\x00\x00\x00\x00\x00\x00\x00\x00\x00";
    let result = Patch::deserialize(bad_data);

    assert!(result.is_err());
    assert_eq!(result.unwrap_err(), FormatError::UnsupportedVersion { found: 0x99 });
}

#[test]
fn test_stats() {
    let mut patch = Patch::new(1024, 500, 0, 5000);
    patch.add_copy(0, 100);
    patch.add_copy(200, 150);
    patch.add_insert(vec![1, 2, 3, 4, 5]);
    patch.add_insert(vec![6, 7, 8]);

    let stats = patch.stats();
    assert_eq!(stats.copy_count, 2);
    assert_eq!(stats.copy_bytes, 250);
    assert_eq!(stats.insert_count, 2);
    assert_eq!(stats.insert_bytes, 8);
}

#[test]
fn test_header_size() {
    // Header: magic(4) + version(1) + chunk_size(4) + source_size(8) + source_hash(8) + target_size(8) = 33 bytes
    let patch = Patch::new(4096, 1000, 0, 1000);
    let bytes = patch.serialize();
    assert_eq!(bytes.len(), 33);
}

#[test]
fn test_validate_source_success() {
    let patch = Patch::new(4096, 100, 0xABCD, 200);
    assert!(patch.validate_source(100, 0xABCD).is_ok());
}

#[test]
fn test_validate_source_size_mismatch() {
    let patch = Patch::new(4096, 100, 0xABCD, 200);
    let result = patch.validate_source(50, 0xABCD);

    assert!(result.is_err());
    match result.unwrap_err() {
        ValidationError::SizeMismatch { expected, actual } => {
            assert_eq!(expected, 100);
            assert_eq!(actual, 50);
        }
        _ => panic!("Expected SizeMismatch"),
    }
}

#[test]
fn test_validate_source_hash_mismatch() {
    let patch = Patch::new(4096, 100, 0xABCD, 200);
    let result = patch.validate_source(100, 0x1234);

    assert!(result.is_err());
    match result.unwrap_err() {
        ValidationError::HashMismatch { expected, actual } => {
            assert_eq!(expected, 0xABCD);
            assert_eq!(actual, 0x1234);
        }
        _ => panic!("Expected HashMismatch"),
    }
}

#[test]
fn test_binary_data_in_insert() {
    let mut patch = Patch::new(1024, 256, 0, 256);
    // Full range of byte values
    let data: Vec<u8> = (0u8..=255).collect();
    patch.add_insert(data.clone());

    let bytes = patch.serialize();
    let restored = Patch::deserialize(&bytes).unwrap();

    match &restored.instructions[0] {
        Instruction::Insert {
            data: restored_data,
        } => {
            assert_eq!(restored_data, &data);
        }
        _ => panic!("Expected INSERT instruction"),
    }
}

#[test]
fn metadata_parse_references_insert_data_in_place() {
    let mut patch = Patch::new(4, 0, patchly::hash::calculate_hash(b""), 5);
    patch.add_insert(b"hello".to_vec());
    let bytes = patch.serialize();

    let meta = PatchMetadata::parse(&bytes).unwrap();
    assert_eq!(meta.chunk_size, 4);
    assert_eq!(meta.target_size, 5);
    assert_eq!(meta.instructions.len(), 1);
    match meta.instructions[0] {
        ParsedInstruction::Insert { patch_offset, length } => {
            // tag at 33, length field at 34..38, data from 38
            assert_eq!(patch_offset, 38);
            assert_eq!(length, 5);
            assert_eq!(&bytes[patch_offset..patch_offset + length as usize], b"hello");
        }
        _ => panic!("Expected INSERT instruction"),
    }
}

#[test]
fn metadata_validate_source_matches_patch() {
    let patch = Patch::new(4, 100, 0xABCD, 200);
    let bytes = patch.serialize();
    let meta = PatchMetadata::parse(&bytes).unwrap();
    assert!(meta.validate_source(100, 0xABCD).is_ok());
    assert!(meta.validate_source(99, 0xABCD).is_err());
}

#[test]
fn truncated_header_is_rejected() {
    assert_eq!(
        Patch::deserialize(b"PTCH\x01\x00").unwrap_err(),
        FormatError::TruncatedHeader
    );
}

#[test]
fn unknown_instruction_tag_is_rejected() {
    let patch = Patch::new(4, 0, patchly::hash::calculate_hash(b""), 0);
    let mut bytes = patch.serialize();
    bytes.push(0x7F);
    assert_eq!(
        Patch::deserialize(&bytes).unwrap_err(),
        FormatError::UnknownInstructionTag { tag: 0x7F }
    );
}

#[test]
fn truncated_instruction_is_rejected() {
    let patch = Patch::new(4, 0, patchly::hash::calculate_hash(b""), 0);
    let mut bytes = patch.serialize();
    bytes.push(0x01); // COPY tag without its twelve body bytes
    assert_eq!(
        Patch::deserialize(&bytes).unwrap_err(),
        FormatError::TruncatedInstruction
    );
}

#[test]
fn insert_length_overrun_is_rejected() {
    let patch = Patch::new(4, 0, patchly::hash::calculate_hash(b""), 0);
    let mut bytes = patch.serialize();
    bytes.push(0x02); // INSERT tag
    bytes.extend_from_slice(&100u32.to_le_bytes()); // declares 100 payload bytes
    bytes.push(0xAA); // but only one follows
    assert_eq!(
        Patch::deserialize(&bytes).unwrap_err(),
        FormatError::InsertLengthOverrun
    );
}
