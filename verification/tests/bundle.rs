use shrlink::compression::{create_shr_bundle, parse_shr_bundle, CompressedChunk, ParallelCompressor};
use shrlink::ShrLinkError;

#[test]
fn test_shr_bundle_roundtrip() {
    let compressor = ParallelCompressor::default();
    let test_data = b"Test data for bundle".repeat(100);

    let chunk = compressor.compress_chunk(0, test_data.clone()).unwrap();
    let bundle = create_shr_bundle(&[chunk]).unwrap();
    let parsed_chunks = parse_shr_bundle(&bundle).unwrap();

    assert_eq!(parsed_chunks.len(), 1);
    let decompressed = compressor.decompress_chunk(&parsed_chunks[0]).unwrap();
    assert_eq!(test_data, decompressed);
}

#[test]
fn test_shr_bundle_format() {
    let test_data = b"Bundle test data".repeat(100);

    let compressor = ParallelCompressor::default();
    let chunk = compressor.compress_chunk(0, test_data.clone()).unwrap();

    let bundle = create_shr_bundle(&[chunk]).unwrap();
    let parsed_chunks = parse_shr_bundle(&bundle).unwrap();

    assert_eq!(parsed_chunks.len(), 1);

    let decompressed = compressor.decompress_chunk(&parsed_chunks[0]).unwrap();
    assert_eq!(test_data, decompressed);
}

#[test]
fn test_bundle_header_layout() {
    let compressor = ParallelCompressor::default();
    let a = compressor.compress_chunk(0, b"first".to_vec()).unwrap();
    let b = compressor.compress_chunk(1, b"second".to_vec()).unwrap();
    let bundle = create_shr_bundle(&[a.clone(), b.clone()]).unwrap();

    assert_eq!(&bundle[0..4], &b"SHR\x01"[..]);
    assert_eq!(&bundle[4..8], &2u32.to_le_bytes()[..]);
    // First metadata record: index, original size, compressed size, digest.
    assert_eq!(&bundle[8..12], &0u32.to_le_bytes()[..]);
    assert_eq!(&bundle[12..16], &5u32.to_le_bytes()[..]);
    assert_eq!(&bundle[16..20], &(a.data.len() as u32).to_le_bytes()[..]);
    assert_eq!(&bundle[20..52], &a.hash[..]);
    // Total length: header + two records + both payloads.
    assert_eq!(bundle.len(), 8 + 2 * 44 + a.data.len() + b.data.len());
}

#[test]
fn test_bundle_roundtrip_out_of_order() {
    let compressor = ParallelCompressor::default();
    let c0 = compressor.compress_chunk(0, b"zero".to_vec()).unwrap();
    let c1 = compressor.compress_chunk(1, b"one".to_vec()).unwrap();
    let c2 = compressor.compress_chunk(2, b"two".to_vec()).unwrap();

    let bundle = create_shr_bundle(&[c2.clone(), c0.clone(), c1.clone()]).unwrap();
    let parsed = parse_shr_bundle(&bundle).unwrap();

    assert_eq!(parsed.len(), 3);
    for (got, want) in parsed.iter().zip([&c0, &c1, &c2]) {
        assert_eq!(got.index, want.index);
        assert_eq!(got.data, want.data);
        assert_eq!(got.hash, want.hash);
        assert_eq!(got.original_size, want.original_size);
    }
}

#[test]
fn test_empty_bundle_roundtrip() {
    let bundle = create_shr_bundle(&[]).unwrap();
    assert_eq!(bundle.len(), 8);
    let parsed = parse_shr_bundle(&bundle).unwrap();
    assert!(parsed.is_empty());
}

#[test]
fn test_truncated_bundle_rejected() {
    let compressor = ParallelCompressor::default();
    let c0 = compressor.compress_chunk(0, b"alpha beta gamma".to_vec()).unwrap();
    let c1 = compressor.compress_chunk(1, b"delta epsilon".to_vec()).unwrap();
    let bundle = create_shr_bundle(&[c0, c1]).unwrap();

    for t in 4..bundle.len() {
        match parse_shr_bundle(&bundle[..t]) {
            Err(ShrLinkError::MalformedBundle(_)) => {}
            _ => panic!("truncation at offset {} went undetected", t),
        }
    }
}

#[test]
fn test_bad_magic_rejected() {
    let compressor = ParallelCompressor::default();
    let chunk = compressor.compress_chunk(0, b"payload".to_vec()).unwrap();
    let bundle = create_shr_bundle(&[chunk]).unwrap();

    for i in 0..4 {
        let mut corrupted = bundle.clone();
        corrupted[i] ^= 0xff;
        match parse_shr_bundle(&corrupted) {
            Err(ShrLinkError::MalformedBundle(_)) => {}
            _ => panic!("corrupted prologue byte {} went undetected", i),
        }
    }

    match parse_shr_bundle(b"SHR") {
        Err(ShrLinkError::MalformedBundle(_)) => {}
        _ => panic!("short buffer went undetected"),
    }
}

#[test]
fn test_oversized_count_rejected() {
    // A prologue announcing chunks whose metadata cannot fit.
    let mut bundle = b"SHR\x01".to_vec();
    bundle.extend_from_slice(&100u32.to_le_bytes());
    match parse_shr_bundle(&bundle) {
        Err(ShrLinkError::MalformedBundle(_)) => {}
        _ => panic!("expected metadata truncation to be rejected"),
    }
}

#[test]
fn test_parse_ignores_in_memory_order_of_equal_bundles() {
    // The same chunks encoded in two different orders decode to the same
    // index-sorted list.
    let compressor = ParallelCompressor::default();
    let c0 = compressor.compress_chunk(0, b"aaaa".to_vec()).unwrap();
    let c1 = compressor.compress_chunk(1, b"bbbb".to_vec()).unwrap();

    let forward = parse_shr_bundle(&create_shr_bundle(&[c0.clone(), c1.clone()]).unwrap()).unwrap();
    let backward = parse_shr_bundle(&create_shr_bundle(&[c1, c0]).unwrap()).unwrap();

    assert_eq!(forward.len(), backward.len());
    for (a, b) in forward.iter().zip(backward.iter()) {
        assert_eq!(a.index, b.index);
        assert_eq!(a.data, b.data);
        assert_eq!(a.hash, b.hash);
        assert_eq!(a.original_size, b.original_size);
    }
}

#[test]
fn test_compress_then_bundle_roundtrip() {
    let compressor = ParallelCompressor::new(512, 1);
    let data = b"stream that spans several blocks ".repeat(100);
    let result = compressor.compress(&data).unwrap();

    let bundle = create_shr_bundle(&result.chunks).unwrap();
    let parsed: Vec<CompressedChunk> = parse_shr_bundle(&bundle).unwrap();

    let mut reconstructed = Vec::new();
    for chunk in &parsed {
        reconstructed.extend_from_slice(&compressor.decompress_chunk(chunk).unwrap());
    }
    assert_eq!(data.to_vec(), reconstructed);
}
