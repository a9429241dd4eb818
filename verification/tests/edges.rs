use delta_rle::native::NativeValue;
use delta_rle::{
    compute_monotonicity, is_delta_rle_candidate, suits_delta_rle, BlockCompressor, BlockDecompressor,
    CompressiveEncoding, DataBlock, DeltaRle, DeltaRleDecompressor, DeltaRleEncoder, Error,
    FixedWidthDataBlock, LanceBuffer, MiniBlockChunk, MiniBlockCompressed, MiniBlockCompressor,
    MiniBlockDecompressor, Monotonicity,
};

fn fixed(bytes: Vec<u8>, bits_per_value: u64, num_values: u64) -> FixedWidthDataBlock {
    FixedWidthDataBlock { data: LanceBuffer::from(bytes), bits_per_value, num_values }
}

fn fixed_u64(values: &[u64]) -> FixedWidthDataBlock {
    let bytes: Vec<u8> = values.iter().flat_map(|v| v.to_le_bytes()).collect();
    fixed(bytes, 64, values.len() as u64)
}

fn mini(block: FixedWidthDataBlock) -> (MiniBlockCompressed, CompressiveEncoding) {
    MiniBlockCompressor::compress(&DeltaRleEncoder::new(), DataBlock::FixedWidth(block)).unwrap()
}

fn read(bits: u64, buffers: Vec<LanceBuffer>, num_values: u64) -> Result<DataBlock, Error> {
    MiniBlockDecompressor::decompress(&DeltaRleDecompressor::new(bits, 0), buffers, num_values)
}

fn read_block(bits: u64, data: Vec<u8>, num_values: u64) -> Result<DataBlock, Error> {
    BlockDecompressor::decompress(
        &DeltaRleDecompressor::new(bits, 0),
        LanceBuffer::from(data),
        num_values,
    )
}

// ---- deltas ----

#[test]
fn deltas_of_nothing() {
    let none: Vec<u32> = Vec::new();
    assert_eq!(DeltaRleEncoder::compute_deltas(&none), (0, Vec::new()));
}

#[test]
fn deltas_of_every_type() {
    assert_eq!(DeltaRleEncoder::compute_deltas(&[255u8, 0]), (255, vec![255, -255]));
    assert_eq!(DeltaRleEncoder::compute_deltas(&[1u16, 65535]), (1, vec![1, 65534]));
    assert_eq!(DeltaRleEncoder::compute_deltas(&[u32::MAX, 0]).1, vec![4294967295, -4294967295]);
    assert_eq!(DeltaRleEncoder::compute_deltas(&[u64::MAX, 1]), (-1, vec![-1, 2]));
    assert_eq!(DeltaRleEncoder::compute_deltas(&[-5i64, -7, 3]), (-5, vec![-5, -2, 10]));
}

#[test]
fn deltas_restore_the_values() {
    let values = vec![7u16, 9, 9, 2, 65535];
    let (first, deltas) = DeltaRleEncoder::compute_deltas(&values);
    let restored: Vec<u16> = DeltaRleDecompressor::reconstruct_from_deltas(first, &deltas, 5);
    assert_eq!(restored, values);
}

#[test]
fn restoring_takes_neither_the_first_value_nor_the_count_into_account() {
    let restored: Vec<u8> = DeltaRleDecompressor::reconstruct_from_deltas(99, &[3, 1, -2], 1000);
    assert_eq!(restored, vec![3, 4, 2]);
    let none: Vec<u8> = DeltaRleDecompressor::reconstruct_from_deltas(99, &[], 0);
    assert!(none.is_empty());
}

#[test]
fn machine_words() {
    assert_eq!(200u8.to_word(), 200);
    assert_eq!(60000u16.to_word(), 60000);
    assert_eq!(u32::MAX.to_word(), 4294967295);
    assert_eq!((-1i64).to_word(), usize::MAX);
    assert_eq!(u64::MAX.to_word(), usize::MAX);
    assert_eq!(u8::from_word(255), Some(255));
    assert_eq!(u8::from_word(256), None);
    assert_eq!(u16::from_word(65535), Some(65535));
    assert_eq!(u16::from_word(65536), None);
    assert_eq!(u32::from_word(4294967295), Some(u32::MAX));
    assert_eq!(u32::from_word(4294967296), None);
    assert_eq!(u64::from_word(usize::MAX), Some(u64::MAX));
    assert_eq!(i64::from_word(9223372036854775807), Some(i64::MAX));
    assert_eq!(i64::from_word(9223372036854775808), None);
}

// ---- runs ----

#[test]
fn runs_of_nothing() {
    assert_eq!(DeltaRleEncoder::rle_encode_deltas(&[]), (Vec::new(), Vec::new()));
    assert_eq!(DeltaRleDecompressor::rle_decode_deltas(&[], &[]), Vec::<i64>::new());
}

#[test]
fn runs_are_little_endian() {
    let (values, lengths) = DeltaRleEncoder::rle_encode_deltas(&[-2, -2, 258]);
    assert_eq!(
        values,
        vec![0xFE, 0xFF, 0xFF, 0xFF, 0xFF, 0xFF, 0xFF, 0xFF, 2, 1, 0, 0, 0, 0, 0, 0]
    );
    assert_eq!(lengths, vec![2, 1]);
}

#[test]
fn long_runs_are_split() {
    let (values, lengths) = DeltaRleEncoder::rle_encode_deltas(&vec![5; 600]);
    assert_eq!(lengths, vec![255, 255, 90]);
    assert_eq!(values, [[5u8, 0, 0, 0, 0, 0, 0, 0]; 3].concat());
    let (_, lengths) = DeltaRleEncoder::rle_encode_deltas(&vec![5; 510]);
    assert_eq!(lengths, vec![255, 255]);
}

#[test]
fn a_run_is_appended() {
    let mut values = vec![9];
    let mut lengths = vec![8];
    DeltaRleEncoder::add_run(&mut values, &mut lengths, 1, 0);
    assert_eq!((values.clone(), lengths.clone()), (vec![9], vec![8]));
    DeltaRleEncoder::add_run(&mut values, &mut lengths, 1, 256);
    assert_eq!(values, vec![9, 1, 0, 0, 0, 0, 0, 0, 0, 1, 0, 0, 0, 0, 0, 0, 0]);
    assert_eq!(lengths, vec![8, 255, 1]);
}

#[test]
fn runs_round_trip() {
    let mut deltas = vec![i64::MIN, i64::MAX, 0, 0, 0];
    deltas.extend(vec![-1; 700]);
    let (values, lengths) = DeltaRleEncoder::rle_encode_deltas(&deltas);
    assert_eq!(DeltaRleDecompressor::rle_decode_deltas(&values, &lengths), deltas);
    // No run is empty, and only a full run precedes one of the same value.
    assert_eq!(lengths, vec![1, 1, 3, 255, 255, 190]);
    assert_eq!(values.len(), 8 * lengths.len());
}

#[test]
fn incomplete_and_empty_runs_are_skipped() {
    let mut values = Vec::new();
    for v in [4i64, 5, 6] {
        values.extend(v.to_le_bytes());
    }
    // A run of length 0 stands for nothing.
    assert_eq!(DeltaRleDecompressor::rle_decode_deltas(&values, &[1, 0, 2]), vec![4, 6, 6]);
    // Values without a length, lengths without a value.
    assert_eq!(DeltaRleDecompressor::rle_decode_deltas(&values, &[1]), vec![4]);
    assert_eq!(DeltaRleDecompressor::rle_decode_deltas(&values[..15], &[2, 9]), vec![4, 4]);
}

#[test]
fn constant_steps_take_one_run_for_each_255() {
    let values: Vec<u64> = (0..1000).map(|i| 1700000000 + i * 10).collect();
    let (compressed, _) = mini(fixed_u64(&values));
    assert_eq!(compressed.data[1].as_ref(), &[1, 255, 255, 255, 234]);
    // The first value is equal to the step.
    let values: Vec<u64> = (1..257).collect();
    let (compressed, _) = mini(fixed_u64(&values));
    assert_eq!(compressed.data[1].as_ref(), &[255, 1]);
}

// ---- miniblocks ----

#[test]
fn miniblock_in_detail() {
    let (compressed, encoding) = mini(fixed(vec![10, 11, 12, 9], 8, 4));
    let mut values = Vec::new();
    for v in [10i64, 1, -3] {
        values.extend(v.to_le_bytes());
    }
    assert_eq!(
        compressed,
        MiniBlockCompressed {
            data: vec![LanceBuffer::from(values), LanceBuffer::from(vec![1, 2, 1])],
            chunks: vec![MiniBlockChunk { buffer_sizes: vec![24, 3], log_num_values: 0 }],
            num_values: 4,
        }
    );
    assert_eq!(
        encoding,
        CompressiveEncoding::DeltaRle(DeltaRle {
            uncompressed_bits_per_value: 8,
            first_value: 10,
            values: Box::new(CompressiveEncoding::Flat { bits_per_value: 64 }),
            run_lengths: Box::new(CompressiveEncoding::Flat { bits_per_value: 8 }),
        })
    );
}

#[test]
fn the_description_leads_back_to_the_values() {
    let block = fixed(vec![1, 0, 3, 0, 5, 0, 0, 1], 16, 4);
    let (compressed, encoding) = mini(block.clone());
    let desc = match encoding {
        CompressiveEncoding::DeltaRle(desc) => desc,
        CompressiveEncoding::Flat { .. } => panic!("expected a description of runs of deltas"),
    };
    let decompressor = DeltaRleDecompressor::from_description(&desc);
    assert_eq!((decompressor.bits_per_value, decompressor.first_value), (16, 1));
    let read = MiniBlockDecompressor::decompress(&decompressor, compressed.data, 4);
    assert_eq!(read, Ok(DataBlock::FixedWidth(block)));
}

#[test]
fn the_first_value_of_the_decompressor_does_not_matter() {
    let block = fixed_u64(&[30, 20, 10]);
    let (compressed, _) = mini(block.clone());
    let decompressor = DeltaRleDecompressor::new(64, -12345);
    let read = MiniBlockDecompressor::decompress(&decompressor, compressed.data, 3);
    assert_eq!(read, Ok(DataBlock::FixedWidth(block)));
}

#[test]
fn values_beyond_the_signed_range_round_trip() {
    let block = fixed_u64(&[u64::MAX, 0, 1 << 63, u64::MAX - 1]);
    let (compressed, _) = mini(block.clone());
    assert_eq!(read(64, compressed.data, 4), Ok(DataBlock::FixedWidth(block)));
}

#[test]
fn no_values() {
    let (compressed, encoding) = mini(fixed(Vec::new(), 32, 0));
    assert_eq!(
        compressed,
        MiniBlockCompressed { data: Vec::new(), chunks: Vec::new(), num_values: 0 }
    );
    match encoding {
        CompressiveEncoding::DeltaRle(desc) => assert_eq!(desc.first_value, 0),
        CompressiveEncoding::Flat { .. } => panic!("expected a description of runs of deltas"),
    }
    assert_eq!(
        read(32, Vec::new(), 0),
        Ok(DataBlock::FixedWidth(fixed(Vec::new(), 32, 0)))
    );
}

#[test]
fn the_whole_buffer_is_compressed() {
    // The number of values is taken over as it is given.
    let (compressed, _) = mini(fixed(vec![1, 2, 3], 8, 2));
    assert_eq!(compressed.num_values, 2);
    assert_eq!(compressed.data[1].as_ref(), &[3]);
}

#[test]
fn fewer_values_are_a_prefix() {
    let (compressed, _) = mini(fixed(vec![10, 12, 14, 13], 8, 4));
    let prefix = DataBlock::FixedWidth(fixed(vec![10, 12, 14], 8, 3));
    assert_eq!(read(8, compressed.data, 3), Ok(prefix));
}

#[test]
fn decompressed_blocks_are_complete() {
    let (compressed, _) = mini(fixed(vec![0; 40], 32, 10));
    match read(32, compressed.data, 7) {
        Ok(DataBlock::FixedWidth(block)) => assert_eq!(block.data.len(), 28),
        _ => panic!("expected a fixed-width block"),
    }
}

// ---- blocks ----

#[test]
fn block_in_detail() {
    let compressed = BlockCompressor::compress(
        &DeltaRleEncoder::new(),
        DataBlock::FixedWidth(fixed(vec![2, 1, 3, 1], 16, 2)),
    )
    .unwrap();
    let mut expected = Vec::new();
    expected.extend(258i64.to_le_bytes());
    expected.extend(16u64.to_le_bytes());
    expected.extend(258i64.to_le_bytes());
    expected.extend(1i64.to_le_bytes());
    expected.extend([1, 1]);
    assert_eq!(compressed.as_ref(), &expected);
    assert_eq!(
        read_block(16, expected, 2),
        Ok(DataBlock::FixedWidth(fixed(vec![2, 1, 3, 1], 16, 2)))
    );
}

#[test]
fn a_block_holds_the_buffers_of_the_miniblock() {
    let block = fixed_u64(&[5, 6, 7, 100]);
    let (in_mini, _) = mini(block.clone());
    let in_block =
        BlockCompressor::compress(&DeltaRleEncoder::new(), DataBlock::FixedWidth(block)).unwrap();
    let size = in_mini.data[0].len();
    assert_eq!(&in_block.as_ref()[16..16 + size], in_mini.data[0].as_ref());
    assert_eq!(&in_block.as_ref()[16 + size..], in_mini.data[1].as_ref());
}

// ---- errors ----

#[test]
fn unsupported_widths_are_not_compressed() {
    let encoder = DeltaRleEncoder::new();
    for bits in [0, 1, 24, 128] {
        let block = DataBlock::FixedWidth(fixed(vec![1, 2, 3], bits, 1));
        assert_eq!(
            MiniBlockCompressor::compress(&encoder, block.clone()),
            Err(Error::EncoderBitWidth(bits))
        );
        assert_eq!(BlockCompressor::compress(&encoder, block), Err(Error::EncoderBitWidth(bits)));
    }
    assert_eq!(
        Error::EncoderBitWidth(24).message(),
        "DeltaRleEncoder only supports 8, 16, 32, or 64 bit values, got 24"
    );
}

#[test]
fn other_blocks_are_not_compressed() {
    let encoder = DeltaRleEncoder::new();
    assert_eq!(
        MiniBlockCompressor::compress(&encoder, DataBlock::Other),
        Err(Error::EncoderBlockKind)
    );
    assert_eq!(
        BlockCompressor::compress(&encoder, DataBlock::Other),
        Err(Error::EncoderBlockKind)
    );
    assert_eq!(
        Error::EncoderBlockKind.message(),
        "DeltaRleEncoder only supports FixedWidth data blocks"
    );
}

#[test]
fn unsupported_widths_are_not_read() {
    // The width comes first, even where no values are asked for.
    assert_eq!(read(12, Vec::new(), 0), Err(Error::DecompressorBitWidth(12)));
    assert_eq!(
        Error::DecompressorBitWidth(u64::MAX).message(),
        "DeltaRleDecompressor only supports 8, 16, 32, or 64 bit values, got 18446744073709551615"
    );
}

#[test]
fn two_buffers_are_expected() {
    assert_eq!(read(8, Vec::new(), 1), Err(Error::BufferCount(0)));
    assert_eq!(read(8, vec![LanceBuffer::empty(); 3], 1), Err(Error::BufferCount(3)));
    assert_eq!(
        Error::BufferCount(0).message(),
        "DeltaRleDecompressor expects exactly 2 buffers, got 0"
    );
}

#[test]
fn too_few_values() {
    let (compressed, _) = mini(fixed(vec![1, 2, 3], 8, 3));
    assert_eq!(
        read(8, compressed.data, 4),
        Err(Error::ValueCount { expected: 4, found: 3 })
    );
    assert_eq!(
        Error::ValueCount { expected: 1000, found: 90 }.message(),
        "DeltaRleDecompressor expected 1000 values but got 90"
    );
}

#[test]
fn short_blocks() {
    assert_eq!(read_block(8, vec![0; 15], 1), Err(Error::BlockHeaders));
    let mut data = vec![0; 20];
    data[8] = 5;
    assert_eq!(read_block(8, data, 1), Err(Error::BlockValues));
    assert_eq!(
        read_block(8, vec![0; 16], 1),
        Err(Error::ValueCount { expected: 1, found: 0 })
    );
    assert_eq!(
        Error::BlockHeaders.message(),
        "DeltaRle block data too short (minimum 16 bytes for headers)"
    );
    assert_eq!(
        Error::BlockValues.message(),
        "DeltaRle block data too short for values buffer"
    );
}

// ---- selection ----

#[test]
fn candidates() {
    assert!(is_delta_rle_candidate(&fixed(vec![0; 10], 8, 10)));
    assert!(!is_delta_rle_candidate(&fixed(vec![0; 9], 8, 9)));
    assert!(!is_delta_rle_candidate(&fixed(vec![0; 30], 24, 10)));
    for bits in [16, 32, 64] {
        assert!(is_delta_rle_candidate(&fixed(Vec::new(), bits, 10)));
    }
}

#[test]
fn four_in_five_pairs_suit() {
    // 8 of 10 pairs rise, then 7 of 10.
    let enough = fixed(vec![1, 2, 3, 4, 5, 5, 5, 6, 7, 8, 9], 8, 11);
    assert_eq!(compute_monotonicity(&enough), Monotonicity { monotonic: 8, total: 10 });
    assert!(suits_delta_rle(&enough));
    let short = fixed(vec![1, 2, 3, 4, 5, 5, 5, 5, 7, 8, 9], 8, 11);
    assert_eq!(compute_monotonicity(&short), Monotonicity { monotonic: 7, total: 10 });
    assert!(!suits_delta_rle(&short));
    // A block that says it has more values than its buffer holds.
    assert!(!suits_delta_rle(&fixed(vec![1], 8, 11)));
    let falling: Vec<u64> = (0..20).rev().collect();
    assert!(suits_delta_rle(&fixed_u64(&falling)));
}

#[test]
fn monotonicity_counts() {
    let counts = compute_monotonicity(&fixed(vec![1, 3, 3, 2, 4, 3, 1], 8, 7));
    // 2 rises, 3 falls, and an equal pair that counts for neither.
    assert_eq!(counts, Monotonicity { monotonic: 3, total: 6 });
    let none = Monotonicity { monotonic: 0, total: 0 };
    assert_eq!(compute_monotonicity(&fixed(vec![1], 8, 1)), none);
    assert_eq!(compute_monotonicity(&fixed(vec![1, 2, 3], 24, 1)), none);
    // 64-bit values compare as signed integers.
    let counts = compute_monotonicity(&fixed_u64(&[0, u64::MAX]));
    assert_eq!(counts, Monotonicity { monotonic: 1, total: 1 });
    let counts = compute_monotonicity(&fixed_u64(&[1, u64::MAX, 0]));
    assert_eq!(counts, Monotonicity { monotonic: 1, total: 2 });
}

#[test]
fn monotonicity_is_full_only_throughout() {
    let rising = compute_monotonicity(&fixed_u64(&[1, 2, 9, 10]));
    assert_eq!(rising, Monotonicity { monotonic: 3, total: 3 });
    let flat = compute_monotonicity(&fixed_u64(&[1, 2, 2, 10]));
    assert_eq!(flat, Monotonicity { monotonic: 2, total: 3 });
}
