use delta_rle::{
    compute_monotonicity, suits_delta_rle, BlockCompressor, BlockDecompressor, DataBlock,
    DeltaRleDecompressor, DeltaRleEncoder, FixedWidthDataBlock, LanceBuffer, MiniBlockCompressor,
    MiniBlockDecompressor,
};

fn fixed_block(bytes: &[u8], bits_per_value: u64, num_values: usize) -> FixedWidthDataBlock {
    FixedWidthDataBlock {
        data: LanceBuffer::from(bytes.to_vec()),
        bits_per_value,
        num_values: num_values as u64,
    }
}

fn create_data_block(values: &[u64]) -> FixedWidthDataBlock {
    fixed_block(bytemuck::cast_slice(values), 64, values.len())
}

fn typed<T: bytemuck::AnyBitPattern>(bytes: &[u8]) -> Vec<T> {
    bytes.chunks_exact(std::mem::size_of::<T>()).map(bytemuck::pod_read_unaligned).collect()
}

fn monotonicity_ratio(data: &FixedWidthDataBlock) -> f64 {
    let counts = compute_monotonicity(data);
    if counts.total == 0 {
        0.0
    } else {
        counts.monotonic as f64 / counts.total as f64
    }
}

#[test]
fn test_compute_deltas() {
    let data = vec![1000i64, 1001, 1002, 1003, 1004];
    let (first, deltas) = DeltaRleEncoder::compute_deltas(&data);

    assert_eq!(first, 1000);
    assert_eq!(deltas, vec![1000, 1, 1, 1, 1]);
}

#[test]
fn test_rle_encode_deltas() {
    let deltas = vec![1000i64, 1, 1, 1, 1];
    let (values, lengths) = DeltaRleEncoder::rle_encode_deltas(&deltas);

    // Should produce 2 runs: (1000, 1) and (1, 4)
    assert_eq!(values.len(), 16); // 2 i64 values = 16 bytes
    assert_eq!(lengths.len(), 2);
    assert_eq!(lengths[0], 1);
    assert_eq!(lengths[1], 4);
}

#[test]
fn test_rle_decode_deltas() {
    // Create encoded data for [1000, 1, 1, 1, 1]
    let values_buf = vec![
        0xE8, 0x03, 0x00, 0x00, 0x00, 0x00, 0x00, 0x00, // 1000 in little-endian
        0x01, 0x00, 0x00, 0x00, 0x00, 0x00, 0x00, 0x00, // 1 in little-endian
    ];
    let lengths_buf = vec![1, 4];

    let deltas = DeltaRleDecompressor::rle_decode_deltas(&values_buf, &lengths_buf);
    assert_eq!(deltas, vec![1000, 1, 1, 1, 1]);
}

#[test]
fn test_reconstruct_from_deltas() {
    let deltas = vec![1000i64, 1, 1, 1, 1];
    let first_value = 1000;

    let reconstructed: Vec<i64> =
        DeltaRleDecompressor::reconstruct_from_deltas(first_value, &deltas, 5);

    assert_eq!(reconstructed, vec![1000, 1001, 1002, 1003, 1004]);
}

#[test]
fn test_compute_monotonicity() {
    // Fully increasing
    let data = create_data_block(&[1u64, 2, 3, 4, 5]);
    assert_eq!(monotonicity_ratio(&data), 1.0);

    // Fully decreasing
    let data = create_data_block(&[5u64, 4, 3, 2, 1]);
    assert_eq!(monotonicity_ratio(&data), 1.0);

    // Mixed
    let data = create_data_block(&[1u64, 3, 2, 4, 3]);
    assert!(monotonicity_ratio(&data) < 1.0);
}

#[test]
fn test_should_use_delta_rle() {
    // Monotonic data with enough values
    let data = create_data_block(&(0..100u64).collect::<Vec<_>>());
    assert!(suits_delta_rle(&data));

    // Too few values
    let data = create_data_block(&[1u64, 2, 3]);
    assert!(!suits_delta_rle(&data));

    // Not monotonic (oscillating pattern)
    let oscillating: Vec<u64> = (0..100).map(|i| if i % 2 == 0 { i + 2 } else { i }).collect();
    let data = create_data_block(&oscillating);
    assert!(!suits_delta_rle(&data));
}

// ========== Round trips ==========

#[test]
fn test_delta_rle_roundtrip_i64_monotonic_increasing() {
    // Test monotonic increasing i64 data (like timestamps)
    let data: Vec<i64> = (0..10000i64).map(|i| 1700000000000i64 + i * 1000).collect();
    let encoder = DeltaRleEncoder::new();

    let block = DataBlock::FixedWidth(fixed_block(bytemuck::cast_slice(&data), 64, data.len()));

    // Compress
    let (compressed, _encoding) = MiniBlockCompressor::compress(&encoder, block).unwrap();
    assert_eq!(compressed.num_values, data.len() as u64);

    // Decompress
    let decompressor = DeltaRleDecompressor::new(64, data[0]);
    let decompressed =
        MiniBlockDecompressor::decompress(&decompressor, compressed.data, compressed.num_values)
            .unwrap();

    // Verify round-trip correctness
    match decompressed {
        DataBlock::FixedWidth(ref result) => {
            let result_slice: Vec<i64> = typed(result.data.as_ref());
            assert_eq!(result_slice, data);
        }
        _ => panic!("Expected FixedWidth block"),
    }
}

#[test]
fn test_delta_rle_roundtrip_u32_monotonic_increasing() {
    // Test monotonic increasing u32 data (like auto-increment IDs)
    let data: Vec<u32> = (1..10000u32).collect();
    let encoder = DeltaRleEncoder::new();

    let block = DataBlock::FixedWidth(fixed_block(bytemuck::cast_slice(&data), 32, data.len()));

    // Compress
    let (compressed, _encoding) = MiniBlockCompressor::compress(&encoder, block).unwrap();

    // Decompress
    let decompressor = DeltaRleDecompressor::new(32, data[0] as i64);
    let decompressed =
        MiniBlockDecompressor::decompress(&decompressor, compressed.data, compressed.num_values)
            .unwrap();

    // Verify round-trip correctness
    match decompressed {
        DataBlock::FixedWidth(ref result) => {
            let result_slice: Vec<u32> = typed(result.data.as_ref());
            assert_eq!(result_slice, data);
        }
        _ => panic!("Expected FixedWidth block"),
    }
}

#[test]
fn test_delta_rle_roundtrip_u64_monotonic_decreasing() {
    // Test monotonic decreasing u64 data
    let data: Vec<u64> = (0..5000u64).rev().collect();
    let encoder = DeltaRleEncoder::new();

    let block = DataBlock::FixedWidth(fixed_block(bytemuck::cast_slice(&data), 64, data.len()));

    // Compress
    let (compressed, _encoding) = MiniBlockCompressor::compress(&encoder, block).unwrap();

    // Decompress
    let decompressor = DeltaRleDecompressor::new(64, data[0] as i64);
    let decompressed =
        MiniBlockDecompressor::decompress(&decompressor, compressed.data, compressed.num_values)
            .unwrap();

    // Verify round-trip correctness
    match decompressed {
        DataBlock::FixedWidth(ref result) => {
            let result_slice: Vec<u64> = typed(result.data.as_ref());
            assert_eq!(result_slice, data);
        }
        _ => panic!("Expected FixedWidth block"),
    }
}

#[test]
fn test_delta_rle_roundtrip_u16_with_small_deltas() {
    // Test u16 with small delta values (like sensor readings at regular intervals)
    let data: Vec<u16> = (0..1000u16).map(|i| 1000 + i % 100).collect();
    let encoder = DeltaRleEncoder::new();

    let block = DataBlock::FixedWidth(fixed_block(bytemuck::cast_slice(&data), 16, data.len()));

    // Compress
    let (compressed, _encoding) = MiniBlockCompressor::compress(&encoder, block).unwrap();

    // Decompress
    let decompressor = DeltaRleDecompressor::new(16, data[0] as i64);
    let decompressed =
        MiniBlockDecompressor::decompress(&decompressor, compressed.data, compressed.num_values)
            .unwrap();

    // Verify round-trip correctness
    match decompressed {
        DataBlock::FixedWidth(ref result) => {
            let result_slice: Vec<u16> = typed(result.data.as_ref());
            assert_eq!(result_slice, data);
        }
        _ => panic!("Expected FixedWidth block"),
    }
}

#[test]
fn test_delta_rle_roundtrip_u8_minimal_values() {
    // Test u8 with small dataset (boundary case: 10 values)
    let data: Vec<u8> = (10..20u8).collect();
    let encoder = DeltaRleEncoder::new();

    let block = DataBlock::FixedWidth(fixed_block(bytemuck::cast_slice(&data), 8, data.len()));

    // Compress
    let (compressed, _encoding) = MiniBlockCompressor::compress(&encoder, block).unwrap();

    // Decompress
    let decompressor = DeltaRleDecompressor::new(8, data[0] as i64);
    let decompressed =
        MiniBlockDecompressor::decompress(&decompressor, compressed.data, compressed.num_values)
            .unwrap();

    // Verify round-trip correctness
    match decompressed {
        DataBlock::FixedWidth(ref result) => {
            let result_slice: &[u8] = bytemuck::cast_slice(result.data.as_ref());
            assert_eq!(result_slice, &data);
        }
        _ => panic!("Expected FixedWidth block"),
    }
}

// ========== Compression ratio ==========

/// The size of plain run-length encoding: each run takes a value and a length byte.
fn rle_size<T: PartialEq>(data: &[T]) -> u64 {
    let mut runs = 0u64;
    let mut length = 0;
    for i in 0..data.len() {
        if i > 0 && data[i] == data[i - 1] && length < 255 {
            length += 1;
        } else {
            runs += 1;
            length = 1;
        }
    }
    runs * (std::mem::size_of::<T>() as u64 + 1)
}

#[test]
fn test_delta_rle_compression_ratio_vs_rle() {
    // Test timestamp data (i64) with varying sizes
    for count in [1000, 10000] {
        let name = format!("timestamp_i64_{}", count);
        let data: Vec<i64> = (0..count).map(|i| 1700000000000i64 + i * 1000).collect();

        let encoder = DeltaRleEncoder::new();
        let block =
            DataBlock::FixedWidth(fixed_block(bytemuck::cast_slice(&data), 64, count as usize));

        // Delta+RLE compression size
        let (delta_rle_compressed, _) = MiniBlockCompressor::compress(&encoder, block).unwrap();
        let delta_rle_size = delta_rle_compressed.data.iter().map(|b| b.len() as u64).sum::<u64>();

        // RLE compression size
        let rle_size = rle_size(&data);

        let ratio = delta_rle_size as f64 / rle_size as f64;
        println!(
            "{}: Delta+RLE={} bytes, RLE={} bytes, ratio={:.2}x (Delta+RLE smaller is better)",
            name, delta_rle_size, rle_size, ratio
        );

        // For monotonic data, Delta+RLE should be significantly better than RLE
        assert!(
            ratio < 0.5,
            "{}: Delta+RLE ({}) should be at least 2x better than RLE ({}), got ratio {:.2}",
            name, delta_rle_size, rle_size, ratio
        );
    }

    // Test u32 auto-increment IDs
    for count in [1000, 10000] {
        let name = format!("ids_u32_{}", count);
        let data: Vec<u32> = (1..count as u32 + 1).collect();

        let encoder = DeltaRleEncoder::new();
        let block =
            DataBlock::FixedWidth(fixed_block(bytemuck::cast_slice(&data), 32, count as usize));

        // Delta+RLE compression size
        let (delta_rle_compressed, _) = MiniBlockCompressor::compress(&encoder, block).unwrap();
        let delta_rle_size = delta_rle_compressed.data.iter().map(|b| b.len() as u64).sum::<u64>();

        // RLE compression size
        let rle_size = rle_size(&data);

        let ratio = delta_rle_size as f64 / rle_size as f64;
        println!(
            "{}: Delta+RLE={} bytes, RLE={} bytes, ratio={:.2}x (Delta+RLE smaller is better)",
            name, delta_rle_size, rle_size, ratio
        );

        // For monotonic data, Delta+RLE should be significantly better than RLE
        assert!(
            ratio < 0.5,
            "{}: Delta+RLE ({}) should be at least 2x better than RLE ({}), got ratio {:.2}",
            name, delta_rle_size, rle_size, ratio
        );
    }
}

#[test]
fn test_delta_rle_compression_size_standalone() {
    // Test that Delta+RLE achieves good compression on monotonic data
    let encoder = DeltaRleEncoder::new();

    // Timestamps: 10000 values, delta = 1000
    let data: Vec<i64> = (0..10000i64).map(|i| 1700000000000i64 + i * 1000).collect();
    let bytes: &[u8] = bytemuck::cast_slice(&data);

    let block = DataBlock::FixedWidth(fixed_block(bytes, 64, data.len()));

    // Original size: 10000 * 8 = 80000 bytes
    let original_size = bytes.len() as f64;

    let (compressed, _) = MiniBlockCompressor::compress(&encoder, block).unwrap();
    let compressed_size = compressed.data.iter().map(|b| b.len() as f64).sum::<f64>();

    let compression_ratio = original_size / compressed_size;
    println!(
        "Original: {:.0} bytes, Compressed: {:.0} bytes, Ratio: {:.1}x",
        original_size, compressed_size, compression_ratio
    );

    // Expect at least 2x compression for this pattern
    assert!(
        compression_ratio >= 2.0,
        "Expected at least 2x compression, got {:.1}x",
        compression_ratio
    );
}

// ========== Block format ==========

#[test]
fn test_delta_rle_block_format_roundtrip() {
    // Test the BlockCompressor/BlockDecompressor round-trip
    let data: Vec<u64> = (0..5000u64).map(|i| 1000000 + i).collect();
    let encoder = DeltaRleEncoder::new();

    let block = DataBlock::FixedWidth(fixed_block(bytemuck::cast_slice(&data), 64, data.len()));

    // Compress using block format
    let compressed = BlockCompressor::compress(&encoder, block).unwrap();
    let compressed_size = compressed.len() as u64;

    // Decompress
    let decompressor = DeltaRleDecompressor::new(64, data[0] as i64);
    let decompressed =
        BlockDecompressor::decompress(&decompressor, compressed, data.len() as u64).unwrap();

    // Verify round-trip correctness
    match decompressed {
        DataBlock::FixedWidth(ref result) => {
            let result_slice: Vec<u64> = typed(result.data.as_ref());
            assert_eq!(result_slice, data);
        }
        _ => panic!("Expected FixedWidth block"),
    }

    println!(
        "Block format: {} values, compressed to {} bytes ({:.1}x ratio)",
        data.len(),
        compressed_size,
        (data.len() * 8) as f64 / compressed_size as f64
    );
}
