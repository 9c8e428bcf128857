use patchly::buffer::{chunk_buffer_from_slice, split_into_chunks, ChunkBuffer};

#[test]
fn test_new_buffer() {
    let buffer = ChunkBuffer::new();
    assert!(buffer.is_empty());
    assert_eq!(buffer.total_size(), 0);
    assert_eq!(buffer.chunk_count(), 0);
}

#[test]
fn test_push_and_size() {
    let mut buffer = ChunkBuffer::new();
    buffer.push(vec![1, 2, 3, 4, 5]);
    buffer.push(vec![6, 7, 8]);

    assert_eq!(buffer.total_size(), 8);
    assert_eq!(buffer.chunk_count(), 2);
    assert!(!buffer.is_empty());
}

#[test]
fn test_push_slice() {
    let mut buffer = ChunkBuffer::new();
    buffer.push_slice(b"hello");
    buffer.push_slice(b" world");

    assert_eq!(buffer.total_size(), 11);
    assert_eq!(buffer.chunk_count(), 2);
}

#[test]
fn test_get_chunk() {
    let mut buffer = ChunkBuffer::new();
    buffer.push(vec![1, 2, 3]);
    buffer.push(vec![4, 5, 6]);

    assert_eq!(buffer.get_chunk(0), Some(&[1u8, 2, 3][..]));
    assert_eq!(buffer.get_chunk(1), Some(&[4u8, 5, 6][..]));
    assert_eq!(buffer.get_chunk(2), None);
}

#[test]
fn test_iter_chunks() {
    let mut buffer = ChunkBuffer::new();
    buffer.push(vec![1, 2]);
    buffer.push(vec![3, 4]);
    buffer.push(vec![5, 6]);

    let chunks: Vec<&[u8]> = buffer.iter_chunks();
    assert_eq!(chunks.len(), 3);
    assert_eq!(chunks[0], &[1, 2]);
    assert_eq!(chunks[1], &[3, 4]);
    assert_eq!(chunks[2], &[5, 6]);
}

#[test]
fn test_merge() {
    let mut buffer = ChunkBuffer::new();
    buffer.push(vec![1, 2, 3]);
    buffer.push(vec![4, 5]);
    buffer.push(vec![6, 7, 8, 9]);

    let merged = buffer.merge();
    assert_eq!(merged, vec![1, 2, 3, 4, 5, 6, 7, 8, 9]);
}

#[test]
fn test_merge_empty() {
    let buffer = ChunkBuffer::new();
    let merged = buffer.merge();
    assert!(merged.is_empty());
}

#[test]
fn test_read_at_single_chunk() {
    let mut buffer = ChunkBuffer::new();
    buffer.push(vec![0, 1, 2, 3, 4, 5, 6, 7, 8, 9]);

    assert_eq!(buffer.read_at(0, 3), Some(vec![0, 1, 2]));
    assert_eq!(buffer.read_at(3, 4), Some(vec![3, 4, 5, 6]));
    assert_eq!(buffer.read_at(7, 3), Some(vec![7, 8, 9]));
}

#[test]
fn test_read_at_across_chunks() {
    let mut buffer = ChunkBuffer::new();
    buffer.push(vec![0, 1, 2, 3]);
    buffer.push(vec![4, 5, 6, 7]);
    buffer.push(vec![8, 9]);

    // Read across first and second chunk
    assert_eq!(buffer.read_at(2, 4), Some(vec![2, 3, 4, 5]));

    // Read across all three chunks
    assert_eq!(buffer.read_at(3, 5), Some(vec![3, 4, 5, 6, 7]));

    // Read entire buffer
    assert_eq!(
        buffer.read_at(0, 10),
        Some(vec![0, 1, 2, 3, 4, 5, 6, 7, 8, 9])
    );
}

#[test]
fn test_read_at_out_bounds() {
    let mut buffer = ChunkBuffer::new();
    buffer.push(vec![1, 2, 3, 4, 5]);

    assert_eq!(buffer.read_at(0, 10), None); // Too long
    assert_eq!(buffer.read_at(5, 1), None); // Start at end
    assert_eq!(buffer.read_at(10, 1), None); // Way past end
}

#[test]
fn test_read_at_empty_buffer() {
    let buffer = ChunkBuffer::new();
    assert_eq!(buffer.read_at(0, 1), None);
}

#[test]
fn test_split_into_chunks() {
    let data = vec![1, 2, 3, 4, 5, 6, 7, 8, 9, 10];
    let chunks = split_into_chunks(&data, 3);

    assert_eq!(chunks.len(), 4);
    assert_eq!(chunks[0], vec![1, 2, 3]);
    assert_eq!(chunks[1], vec![4, 5, 6]);
    assert_eq!(chunks[2], vec![7, 8, 9]);
    assert_eq!(chunks[3], vec![10]);
}

#[test]
fn test_split_into_chunks_exact() {
    let data = vec![1, 2, 3, 4, 5, 6];
    let chunks = split_into_chunks(&data, 2);

    assert_eq!(chunks.len(), 3);
    assert_eq!(chunks[0], vec![1, 2]);
    assert_eq!(chunks[1], vec![3, 4]);
    assert_eq!(chunks[2], vec![5, 6]);
}

#[test]
fn test_split_info_chunks_larger_than_data() {
    let data = vec![1, 2, 3];
    let chunks = split_into_chunks(&data, 10);

    assert_eq!(chunks.len(), 1);
    assert_eq!(chunks[0], vec![1, 2, 3]);
}

#[test]
fn test_chunk_buffer_from_slice() {
    let data = b"hello world, this is a test";
    let buffer = chunk_buffer_from_slice(data, 5);

    assert_eq!(buffer.total_size(), data.len());
    assert_eq!(buffer.chunk_count(), 6); // 27 : 5 = 5 full + 1 partial

    // Verify merge gives back original
    assert_eq!(buffer.merge(), data.to_vec());
}

#[test]
fn test_with_capacity() {
    let buffer = ChunkBuffer::with_capacity(10);
    assert!(buffer.is_empty());
}

#[test]
fn test_default() {
    let buffer: ChunkBuffer = ChunkBuffer::new();
    assert!(buffer.is_empty());
}

#[test]
fn test_clear() {
    let mut buffer = ChunkBuffer::new();
    buffer.push(vec![1, 2, 3]);
    buffer.clear();
    assert!(buffer.is_empty());
    assert_eq!(buffer.chunk_count(), 0);
    assert_eq!(buffer.read_at(0, 1), None);
}
