use chunkers::{Chunk, ChunkerConfig, ConfigError, FixedSizeChunking, RabinCDC, SegmentAdapter};

fn generate_test_data(length: usize) -> Vec<u8> {
    (0..length).map(|i| (i % 1024) as u8).collect()
}

fn whole_rabin_chunks(data: &[u8]) -> Vec<Chunk> {
    let mut chunker = RabinCDC::new(data, 64, 64, 256, 1024).unwrap();
    let mut chunks = Vec::new();
    while let Some(chunk) = chunker.next() {
        chunks.push(chunk);
    }
    chunks
}

fn whole_fixed_chunks(data: &[u8], chunk_size: usize) -> Vec<Chunk> {
    let mut chunker = FixedSizeChunking::new(data, chunk_size).unwrap();
    let mut chunks = Vec::new();
    while let Some(chunk) = chunker.next() {
        chunks.push(chunk);
    }
    chunks
}

fn streamed_chunks(config: ChunkerConfig, data: &[u8], block_sizes: &[usize]) -> Vec<Chunk> {
    let mut adapter = SegmentAdapter::new(config).unwrap();
    let mut chunks = Vec::new();
    let mut pos = 0;
    for &size in block_sizes {
        let end = (pos + size).min(data.len());
        chunks.extend(adapter.push_block(&data[pos..end]));
        pos = end;
    }
    assert_eq!(pos, data.len(), "Block sizes must cover the data");
    if let Some(chunk) = adapter.finish() {
        chunks.push(chunk);
    }
    chunks
}

fn rabin_config() -> ChunkerConfig {
    ChunkerConfig::Rabin { win_size: 64, min_size: 64, avg_size: 256, max_size: 1024 }
}

/// Chunking a source in one pass equals chunking it split into two blocks.
#[test]
fn test_stream_rabin_two_blocks() {
    let data = generate_test_data(5000);
    let whole = whole_rabin_chunks(&data);
    let streamed = streamed_chunks(rabin_config(), &data, &[2000, 3000]);
    assert_eq!(whole, streamed);
}

/// Chunking a source in one pass equals chunking it split into many blocks
/// of arbitrary, uneven sizes.
#[test]
fn test_stream_rabin_uneven_blocks() {
    let data = generate_test_data(9000);
    let whole = whole_rabin_chunks(&data);
    let streamed = streamed_chunks(rabin_config(), &data, &[1, 777, 1500, 0, 63, 4000, 2659]);
    assert_eq!(whole, streamed);
}

/// A source below the minimum chunk size streams to one flushed chunk.
#[test]
fn test_stream_rabin_small_source() {
    let data = generate_test_data(50);
    let whole = whole_rabin_chunks(&data);
    let streamed = streamed_chunks(rabin_config(), &data, &[20, 30]);
    assert_eq!(whole, streamed);
    assert_eq!(streamed, vec![Chunk { offset: 0, length: 50 }]);
}

/// The fixed-size chunker streams to the same chunks as a single pass.
#[test]
fn test_stream_fixed_blocks() {
    let data = generate_test_data(100);
    let config = ChunkerConfig::FixedSize { chunk_size: 7 };
    let whole = whole_fixed_chunks(&data, 7);
    let streamed = streamed_chunks(config, &data, &[10, 25, 1, 64]);
    assert_eq!(whole, streamed);
}

/// The streamed chunks partition the stream whatever the block sizes.
#[test]
fn test_stream_partition() {
    let data = generate_test_data(4096);
    let streamed = streamed_chunks(rabin_config(), &data, &[1024, 1024, 1024, 1024]);

    assert!(!streamed.is_empty());
    assert_eq!(streamed[0].offset, 0);
    for w in streamed.windows(2) {
        assert_eq!(w[0].offset + w[0].length, w[1].offset, "Chunks must be contiguous");
    }
    let last = streamed.last().unwrap();
    assert_eq!(last.offset + last.length, data.len());
}

/// An adapter fed nothing flushes nothing.
#[test]
fn test_stream_empty() {
    let mut adapter = SegmentAdapter::new(rabin_config()).unwrap();
    let chunks = adapter.push_block(&[]);
    assert!(chunks.is_empty());
    assert_eq!(adapter.finish(), None);
}

/// The adapter makes the same parameter checks as the chunkers themselves.
#[test]
fn test_stream_config_errors() {
    let r = SegmentAdapter::new(ChunkerConfig::FixedSize { chunk_size: 0 });
    assert!(matches!(r, Err(ConfigError::ZeroChunkSize)));

    let r = SegmentAdapter::new(ChunkerConfig::Rabin {
        win_size: 50,
        min_size: 50,
        avg_size: 100,
        max_size: 200,
    });
    assert!(matches!(r, Err(ConfigError::WindowSizeNotPowerOfTwo)));
}

/// Generated data blocks have exactly the requested size.
#[test]
fn test_generate_data_block_len() {
    let block = chunkers::generate_data_block(1234, Some(42));
    assert_eq!(block.len(), 1234);
    let block = chunkers::generate_data_block(0, None);
    assert_eq!(block.len(), 0);
}
