use shrlink::compression::{CompressedChunk, ParallelCompressor, BLOCK_SIZE};
use shrlink::ShrLinkError;

#[test]
fn test_compression_roundtrip() {
    let compressor = ParallelCompressor::default();
    let test_data = b"Hello, world! This is a test compression string.".repeat(1000);

    let chunk = compressor.compress_chunk(0, test_data.clone()).unwrap();
    let decompressed = compressor.decompress_chunk(&chunk).unwrap();

    assert_eq!(test_data, decompressed);
}

#[test]
fn test_parallel_compression() {
    let compressor = ParallelCompressor::default();
    let test_data = b"A".repeat(10 * 1024 * 1024); // 10 MB

    let result = compressor.compress(&test_data).unwrap();

    assert!(result.chunks.len() > 1); // Should be split into multiple chunks
    assert_eq!(result.total_original_size, test_data.len());

    // Verify decompression
    let mut decompressed = Vec::new();
    for chunk in &result.chunks {
        let chunk_data = compressor.decompress_chunk(chunk).unwrap();
        decompressed.extend_from_slice(&chunk_data);
    }

    assert_eq!(test_data, decompressed);
}

#[test]
fn test_end_to_end_compression() {
    let test_data = b"Hello, world! This is a test file for compression.".repeat(1000);

    let compressor = ParallelCompressor::default();
    let result = compressor.compress(&test_data).unwrap();

    assert!(!result.chunks.is_empty());
    assert_eq!(result.total_original_size, test_data.len());

    let mut reconstructed = Vec::new();
    for chunk in &result.chunks {
        let decompressed = compressor.decompress_chunk(chunk).unwrap();
        reconstructed.extend_from_slice(&decompressed);
    }

    assert_eq!(test_data, reconstructed);
}

#[test]
fn test_large_file_chunking() {
    let large_data = vec![1u8; 20 * 1024 * 1024]; // 20 MB

    let compressor = ParallelCompressor::new(4 * 1024 * 1024, 1); // 4 MiB chunks
    let result = compressor.compress(&large_data).unwrap();

    assert_eq!(result.chunks.len(), 5); // 20 MB / 4 MiB = 5 chunks

    let mut reconstructed = Vec::new();
    for chunk in &result.chunks {
        let decompressed = compressor.decompress_chunk(chunk).unwrap();
        reconstructed.extend_from_slice(&decompressed);
    }

    assert_eq!(large_data, reconstructed);
}

#[test]
fn test_hash_verification() {
    let test_data = b"Test data for hash verification";
    let compressor = ParallelCompressor::default();

    let mut chunk = compressor.compress_chunk(0, test_data.to_vec()).unwrap();

    // Corrupt the hash
    chunk.hash[0] = chunk.hash[0].wrapping_add(1);

    let result = compressor.decompress_chunk(&chunk);

    match result {
        Err(ShrLinkError::HashMismatch { .. }) => {
            // Expected error
        }
        _ => panic!("Expected hash mismatch error"),
    }
}

#[test]
fn test_parallel_compression_performance() {
    let large_data = vec![0u8; 10 * 1024 * 1024]; // 10 MB

    let compressor = ParallelCompressor::default();
    let start = std::time::Instant::now();

    let chunk = compressor.compress_chunk(0, large_data.clone()).unwrap();
    let compression_time = start.elapsed();

    println!("Compression took: {:?}", compression_time);

    let start = std::time::Instant::now();
    let decompressed = compressor.decompress_chunk(&chunk).unwrap();
    let decompression_time = start.elapsed();

    println!("Decompression took: {:?}", decompression_time);

    assert_eq!(large_data, decompressed);
    assert!(compression_time < std::time::Duration::from_secs(1));
    assert!(decompression_time < std::time::Duration::from_secs(1));
}

#[test]
fn test_empty_input_yields_no_chunks() {
    let compressor = ParallelCompressor::default();
    let result = compressor.compress(&[]).unwrap();
    assert_eq!(result.chunks.len(), 0);
    assert_eq!(result.total_original_size, 0);
    assert_eq!(result.total_compressed_size, 0);
}

#[test]
fn test_block_sized_input_yields_one_chunk() {
    let compressor = ParallelCompressor::new(1024, 1);
    let data = vec![7u8; 1024];
    let result = compressor.compress(&data).unwrap();
    assert_eq!(result.chunks.len(), 1);
    assert_eq!(result.chunks[0].index, 0);
    assert_eq!(result.chunks[0].original_size, 1024);
}

#[test]
fn test_default_block_size() {
    assert_eq!(BLOCK_SIZE, 4 * 1024 * 1024);
}

#[test]
fn test_worker_count_invariance() {
    let data = b"worker invariance test payload ".repeat(300);
    let one = ParallelCompressor::new(1024, 1).with_workers(1).compress(&data).unwrap();
    let many = ParallelCompressor::new(1024, 1).with_workers(4).compress(&data).unwrap();

    assert_eq!(one.chunks.len(), many.chunks.len());
    for (a, b) in one.chunks.iter().zip(many.chunks.iter()) {
        assert_eq!(a.index, b.index);
        assert_eq!(a.data, b.data);
        assert_eq!(a.hash, b.hash);
        assert_eq!(a.original_size, b.original_size);
    }
}

#[test]
fn test_zero_block_size_rejected() {
    let compressor = ParallelCompressor::new(0, 1);
    match compressor.compress(b"some input") {
        Err(ShrLinkError::InvalidInput(_)) => {}
        _ => panic!("expected invalid-input error for zero block size"),
    }
}

#[test]
fn test_oversized_block_size_rejected() {
    // A block size beyond the wire format's 32-bit length fields is
    // rejected up front (only representable on 64-bit targets).
    if let Some(block_size) = 1usize.checked_shl(32) {
        let compressor = ParallelCompressor::new(block_size, 1);
        match compressor.compress(b"some input") {
            Err(ShrLinkError::InvalidInput(_)) => {}
            _ => panic!("expected invalid-input error for oversized block size"),
        }
    }
}

#[test]
fn test_invalid_stream_rejected() {
    // A payload that is no size-prepended LZ4 stream fails as a
    // compression error, before any digest comparison.
    // The length header claims one byte of plaintext, but no compressed
    // data follows.
    let compressor = ParallelCompressor::default();
    let chunk = CompressedChunk {
        index: 0,
        data: vec![1, 0, 0, 0],
        hash: [0u8; 32],
        original_size: 1,
    };
    match compressor.decompress_chunk(&chunk) {
        Err(ShrLinkError::Compression(_)) => {}
        _ => panic!("expected compression error for an invalid stream"),
    }
}

#[test]
fn test_digest_bit_flips_detected() {
    let compressor = ParallelCompressor::default();
    let data = b"bit flip detection".to_vec();
    let chunk = compressor.compress_chunk(0, data.clone()).unwrap();

    for byte in 0..32 {
        for bit in 0..8 {
            let mut corrupted = chunk.clone();
            corrupted.hash[byte] ^= 1u8 << bit;
            match compressor.decompress_chunk(&corrupted) {
                Err(ShrLinkError::HashMismatch { .. }) => {}
                _ => panic!("flipping bit {} of digest byte {} went undetected", bit, byte),
            }
        }
    }
}

#[test]
fn test_hash_mismatch_reports_hex() {
    let compressor = ParallelCompressor::default();
    let data = b"hex diagnostics".to_vec();
    let mut chunk = compressor.compress_chunk(0, data).unwrap();
    let good_hash = chunk.hash;
    chunk.hash[0] = chunk.hash[0].wrapping_add(1);

    let mut expected_hex = String::new();
    let mut actual_hex = String::new();
    for b in chunk.hash.iter() {
        expected_hex.push_str(&format!("{:02x}", b));
    }
    for b in good_hash.iter() {
        actual_hex.push_str(&format!("{:02x}", b));
    }

    match compressor.decompress_chunk(&chunk) {
        Err(ShrLinkError::HashMismatch { expected, actual }) => {
            assert_eq!(expected, expected_hex);
            assert_eq!(actual, actual_hex);
        }
        _ => panic!("expected hash mismatch error"),
    }
}

#[test]
fn test_compression_shrinks_repetitive_data() {
    let compressor = ParallelCompressor::default();
    let data = b"repetition ".repeat(100_000);
    let result = compressor.compress(&data).unwrap();
    assert!(result.total_compressed_size < data.len());
}

#[test]
fn test_decompress_all_reproduces_source() {
    let compressor = ParallelCompressor::new(4096, 1);
    let data = b"round trip through the whole pipeline ".repeat(2000);
    let result = compressor.compress(&data).unwrap();
    assert!(result.chunks.len() > 1);

    let reconstructed = compressor.decompress_all(&result.chunks).unwrap();
    assert_eq!(data.to_vec(), reconstructed);

    // A corrupted digest fails the whole call.
    let mut chunks = result.chunks.clone();
    chunks[1].hash[3] ^= 0x10;
    match compressor.decompress_all(&chunks) {
        Err(ShrLinkError::HashMismatch { .. }) => {}
        _ => panic!("expected the corrupted chunk to fail the whole batch"),
    }
}

#[test]
fn test_digest_depends_on_content() {
    let compressor = ParallelCompressor::default();
    let a = compressor.compress_chunk(0, b"content a".to_vec()).unwrap();
    let b = compressor.compress_chunk(0, b"content b".to_vec()).unwrap();
    let a2 = compressor.compress_chunk(1, b"content a".to_vec()).unwrap();
    assert_ne!(a.hash, b.hash);
    assert_eq!(a.hash, a2.hash);
}
