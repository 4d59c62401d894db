use chunkers::{Chunk, ConfigError, FixedSizeChunking};

/// Helper function to generate test data.
fn generate_test_data(length: usize) -> Vec<u8> {
    (0..length).map(|i| i as u8).collect()
}

fn collect_chunks(mut chunker: FixedSizeChunking) -> Vec<Chunk> {
    let mut chunks = Vec::new();
    while let Some(chunk) = chunker.next() {
        chunks.push(chunk);
    }
    chunks
}

#[test]
fn test_chunks_of_equal_size() {
    let data = generate_test_data(10);
    let chunker = FixedSizeChunking::new(&data, 3).unwrap();
    let chunks = collect_chunks(chunker);

    assert_eq!(chunks.len(), 4);
    assert_eq!(chunks[0].offset, 0);
    assert_eq!(chunks[0].length, 3);

    assert_eq!(chunks[1].offset, 3);
    assert_eq!(chunks[1].length, 3);

    assert_eq!(chunks[2].offset, 6);
    assert_eq!(chunks[2].length, 3);

    assert_eq!(chunks[3].offset, 9);
    assert_eq!(chunks[3].length, 1);
}

#[test]
fn test_zero_chunk_size() {
    let data = generate_test_data(10);
    let r = FixedSizeChunking::new(&data, 0);
    assert!(matches!(r, Err(ConfigError::ZeroChunkSize)));
}

#[test]
fn test_fixed_partition() {
    let data = generate_test_data(1000);
    let chunker = FixedSizeChunking::new(&data, 37).unwrap();
    let chunks = collect_chunks(chunker);

    assert!(!chunks.is_empty());
    assert_eq!(chunks[0].offset, 0);
    for w in chunks.windows(2) {
        assert!(w[0].offset < w[1].offset, "Offsets must be strictly increasing");
        assert_eq!(w[0].offset + w[0].length, w[1].offset, "Chunks must be contiguous");
    }
    let last = chunks.last().unwrap();
    assert_eq!(last.offset + last.length, data.len());
}

#[test]
fn test_fixed_chunk_size_exact_divisor() {
    let data = generate_test_data(12);
    let chunker = FixedSizeChunking::new(&data, 3).unwrap();
    let chunks = collect_chunks(chunker);

    assert_eq!(chunks.len(), 4);
    assert!(chunks.iter().all(|c| c.length == 3));
}

#[test]
fn test_fixed_empty_source() {
    let data: Vec<u8> = Vec::new();
    let chunker = FixedSizeChunking::new(&data, 3).unwrap();
    let chunks = collect_chunks(chunker);
    assert!(chunks.is_empty());
}
