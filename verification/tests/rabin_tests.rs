use chunkers::{Chunk, ConfigError, RabinCDC};

/// Generates test data of a specified length filled with a repeating pattern.
fn generate_test_data(length: usize) -> Vec<u8> {
    (0..length).map(|i| (i % 1024) as u8).collect()
}

fn collect_chunks(mut chunker: RabinCDC) -> Vec<Chunk> {
    let mut chunks = Vec::new();
    while let Some(chunk) = chunker.next() {
        chunks.push(chunk);
    }
    chunks
}

/// Tests RabinCDC with a basic input to ensure it creates any chunks.
#[test]
fn test_basic_chunk_creation() {
    let data = generate_test_data(3000);
    let chunker = RabinCDC::new(&data, 64, 64, 256, 1024).unwrap();

    let chunks = collect_chunks(chunker);
    assert!(!chunks.is_empty(), "Should create at least one chunk");
}

/// Tests RabinCDC to ensure chunks do not exceed the maximum chunk size.
#[test]
fn test_max_chunk_size() {
    let data = generate_test_data(5000);
    let chunker = RabinCDC::new(&data, 64, 64, 256, 1024).unwrap();

    let chunks = collect_chunks(chunker);
    assert!(
        chunks.iter().all(|chunk| chunk.length <= 1024),
        "All chunks must be <= 1024 bytes"
    );
}

/// Tests RabinCDC to ensure two chunkers over the same bytes agree.
#[test]
fn test_different_primes() {
    let data = generate_test_data(500);
    let chunker1 = RabinCDC::new(&data, 64, 64, 256, 1024).unwrap();

    let chunker2 = RabinCDC::new(&data, 64, 64, 256, 1024).unwrap();

    let chunks1 = collect_chunks(chunker1);
    let chunks2 = collect_chunks(chunker2);

    assert_eq!(
        chunks1, chunks2,
        "Chunks should be the same when using the same prime"
    );
}

/// Tests RabinCDC with very small data to check edge cases.
#[test]
fn test_small_data() {
    let data = generate_test_data(50);
    let chunker = RabinCDC::new(&data, 64, 64, 256, 1024).unwrap();

    let chunks = collect_chunks(chunker);
    assert_eq!(
        chunks.len(),
        1,
        "Should create exactly one chunk with small data"
    );
    assert_eq!(
        chunks[0].length, 50,
        "The single chunk should contain all data"
    );
}

/// Tests RabinCDC with an invalid window size (not a power of two).
#[test]
fn test_invalid_window_size() {
    let data = generate_test_data(1000);
    let r = RabinCDC::new(&data, 50, 50, 100, 200);
    assert!(matches!(r, Err(ConfigError::WindowSizeNotPowerOfTwo)));
}

/// Tests RabinCDC with a window size that is too large.
#[test]
fn test_window_size_too_large() {
    let data = generate_test_data(1000);
    let r = RabinCDC::new(&data, 2048, 50, 100, 200);
    assert!(matches!(r, Err(ConfigError::WindowSizeOutOfRange)));
}

/// Tests RabinCDC initialization with zero window size.
#[test]
fn test_zero_window_size() {
    let data = generate_test_data(1000);
    let r = RabinCDC::new(&data, 0, 50, 100, 200);
    assert!(matches!(r, Err(ConfigError::WindowSizeOutOfRange)));
}

/// Each size parameter outside its documented range is reported.
#[test]
fn test_min_chunk_size_out_of_range() {
    let data = generate_test_data(1000);
    let r = RabinCDC::new(&data, 64, 32, 256, 1024);
    assert!(matches!(r, Err(ConfigError::MinChunkSizeOutOfRange)));
}

#[test]
fn test_avg_chunk_size_out_of_range() {
    let data = generate_test_data(1000);
    let r = RabinCDC::new(&data, 64, 64, 128, 1024);
    assert!(matches!(r, Err(ConfigError::AvgChunkSizeOutOfRange)));
}

#[test]
fn test_max_chunk_size_out_of_range() {
    let data = generate_test_data(1000);
    let r = RabinCDC::new(&data, 64, 64, 256, 512);
    assert!(matches!(r, Err(ConfigError::MaxChunkSizeOutOfRange)));
}

/// The extreme documented parameter values are accepted, and the values
/// just outside them are rejected.
#[test]
fn test_parameter_range_edges() {
    let data = generate_test_data(50);
    assert!(RabinCDC::new(&data, 8, 64, 256, 1024).is_ok());
    assert!(RabinCDC::new(&data, 64, 1_048_576, 4_194_304, 16_777_216).is_ok());
    assert!(matches!(
        RabinCDC::new(&data, 64, 1_048_577, 4_194_304, 16_777_216),
        Err(ConfigError::MinChunkSizeOutOfRange)
    ));
    assert!(matches!(
        RabinCDC::new(&data, 64, 1_048_576, 4_194_305, 16_777_216),
        Err(ConfigError::AvgChunkSizeOutOfRange)
    ));
    assert!(matches!(
        RabinCDC::new(&data, 64, 1_048_576, 4_194_304, 16_777_217),
        Err(ConfigError::MaxChunkSizeOutOfRange)
    ));
}

/// The emitted chunks partition the source: offsets start at zero, chunks
/// are contiguous, and the last chunk ends at the source length.
#[test]
fn test_rabin_partition() {
    let data = generate_test_data(5000);
    let chunker = RabinCDC::new(&data, 64, 64, 256, 1024).unwrap();
    let chunks = collect_chunks(chunker);

    assert!(!chunks.is_empty());
    assert_eq!(chunks[0].offset, 0);
    for w in chunks.windows(2) {
        assert!(w[0].offset < w[1].offset, "Offsets must be strictly increasing");
        assert_eq!(w[0].offset + w[0].length, w[1].offset, "Chunks must be contiguous");
    }
    let last = chunks.last().unwrap();
    assert_eq!(last.offset + last.length, data.len());
}

/// Every chunk except possibly the final one honours the minimum size.
#[test]
fn test_rabin_min_chunk_size() {
    let data = generate_test_data(5000);
    let chunker = RabinCDC::new(&data, 64, 64, 256, 1024).unwrap();
    let chunks = collect_chunks(chunker);

    for chunk in &chunks[..chunks.len() - 1] {
        assert!(chunk.length >= 64, "All chunks but the last must be >= 64 bytes");
    }
}

/// The fingerprint arithmetic itself, pinned on one concrete input: exact
/// boundaries, including an undersized final remainder.
#[test]
fn test_rabin_known_boundaries() {
    let mut state: u32 = 1;
    let data: Vec<u8> = (0..3000)
        .map(|_| {
            state = state.wrapping_mul(1103515245).wrapping_add(12345);
            (state >> 16) as u8
        })
        .collect();
    let chunker = RabinCDC::new(&data, 64, 64, 256, 1024).unwrap();
    let chunks = collect_chunks(chunker);

    let expected_lengths = [
        216, 124, 624, 95, 235, 116, 121, 149, 202, 115, 110, 99, 137, 120, 112, 93, 64, 262, 6,
    ];
    assert_eq!(chunks.len(), expected_lengths.len());
    let mut offset = 0;
    for (chunk, &length) in chunks.iter().zip(expected_lengths.iter()) {
        assert_eq!(*chunk, Chunk { offset, length });
        offset += length;
    }
    assert_eq!(offset, data.len());
}

/// An empty source produces no chunks.
#[test]
fn test_rabin_empty_source() {
    let data: Vec<u8> = Vec::new();
    let chunker = RabinCDC::new(&data, 64, 64, 256, 1024).unwrap();
    let chunks = collect_chunks(chunker);
    assert!(chunks.is_empty());
}
