use compress_rle_rs::{basic, bitmap, decode, encode, packbits};

// ── Basic RLE ───────────────────────────────────────────────────────

#[test]
fn basic_decode_inverts_encode_on_many_inputs() {
    let inputs: Vec<Vec<u8>> = vec![
        vec![],
        vec![7],
        vec![1, 1, 2, 2, 2, 1],
        vec![0; 700],
        (0..=255u8).collect(),
    ];
    for data in inputs {
        let pairs = basic::encode(&data);
        assert_eq!(basic::decode(&pairs), data);
    }
}

#[test]
fn basic_encode_inverts_decode_on_run_lists() {
    let pairs = vec![(2usize, b'x'), (1, b'y'), (4, b'x')];
    let data = basic::decode(&pairs);
    assert_eq!(data, b"xxyxxxx");
    assert_eq!(basic::encode(&data), pairs);
}

#[test]
fn basic_decode_keeps_zero_counts_and_repeated_bytes() {
    assert_eq!(basic::decode(&[(0, b'a'), (2, b'b'), (1, b'b')]), b"bbb");
}

#[test]
fn basic_compact_splits_long_runs() {
    let data = vec![b'A'; 600];
    let compact = basic::encode_compact(&data);
    assert_eq!(compact, vec![255, b'A', 255, b'A', 90, b'A']);
    assert_eq!(basic::decode_compact(&compact), Some(data));
}

#[test]
fn basic_compact_exact_bytes() {
    assert_eq!(basic::encode_compact(b"AAB"), vec![2, b'A', 1, b'B']);
    assert_eq!(basic::encode_compact(b""), Vec::<u8>::new());
}

#[test]
fn basic_decode_compact_reads_pairs() {
    assert_eq!(basic::decode_compact(&[2, b'x', 0, b'y', 3, b'z']), Some(b"xxzzz".to_vec()));
    assert_eq!(basic::decode_compact(&[]), Some(Vec::new()));
    assert_eq!(basic::decode_compact(&[1, 2, 3]), None);
}

#[test]
fn basic_run_count_matches_encode() {
    for data in [&b""[..], b"A", b"AAB", b"ABAB", b"AAAA"] {
        assert_eq!(basic::run_count(data), basic::encode(data).len());
    }
}

#[test]
fn basic_compression_ratio_exact() {
    assert_eq!(basic::compression_ratio(b"AAB"), (4, 3));
    assert_eq!(basic::compression_ratio(b""), (0, 0));
}

// ── PackBits ────────────────────────────────────────────────────────

#[test]
fn packbits_exact_encoding() {
    assert_eq!(packbits::encode(b"AAABBC"), vec![254, b'A', 2, b'B', b'B', b'C']);
}

#[test]
fn packbits_runs_capped_at_128() {
    let data = vec![b'X'; 300];
    assert_eq!(packbits::encode(&data), vec![129, b'X', 129, b'X', 213, b'X']);
}

#[test]
fn packbits_literals_capped_at_128() {
    let data: Vec<u8> = (0..130u8).collect();
    let encoded = packbits::encode(&data);
    assert_eq!(encoded.len(), 1 + 128 + 1 + 2);
    assert_eq!(encoded[0], 127);
    assert_eq!(&encoded[1..129], &data[..128]);
    assert_eq!(&encoded[129..], &[1, 128, 129]);
    assert_eq!(packbits::decode(&encoded), Some(data));
}

#[test]
fn packbits_literal_stops_before_run_of_three() {
    assert_eq!(packbits::encode(b"ABCCC"), vec![1, b'A', b'B', 254, b'C']);
}

#[test]
fn packbits_decode_errors_and_nops() {
    assert_eq!(packbits::decode(&[0x85]), None);
    assert_eq!(packbits::decode(&[0x80]), Some(Vec::new()));
    assert_eq!(packbits::decode(&[0xFF, 7]), Some(vec![7, 7]));
    assert_eq!(packbits::decode(&[]), Some(Vec::new()));
}

#[test]
fn packbits_encoded_size_exact() {
    assert_eq!(packbits::encoded_size(b"AAABBC"), 6);
    assert_eq!(packbits::encoded_size(b""), 0);
}

// ── Bitmap ──────────────────────────────────────────────────────────

#[test]
fn bitmap_scanline_starting_with_one() {
    assert_eq!(bitmap::encode_scanline(&[1, 1, 0]), vec![0, 2, 1]);
}

#[test]
fn bitmap_scanline_long_runs_split_at_255() {
    let zeros = vec![0u8; 300];
    let encoded = bitmap::encode_scanline(&zeros);
    assert_eq!(encoded, vec![255, 0, 45]);
    assert_eq!(bitmap::decode_scanline(&encoded, 300), Some(zeros));
    let ones = vec![1u8; 256];
    let encoded = bitmap::encode_scanline(&ones);
    assert_eq!(encoded, vec![0, 255, 0, 1]);
    assert_eq!(bitmap::decode_scanline(&encoded, 256), Some(ones));
}

#[test]
fn bitmap_scanline_other_pixel_values_only_split_runs() {
    assert_eq!(bitmap::encode_scanline(&[2, 2, 0]), vec![2, 1]);
}

#[test]
fn bitmap_full_exact_bytes() {
    assert_eq!(bitmap::encode_bitmap(&[vec![0, 1]]), vec![0, 1, 0, 2, 1, 1]);
    assert_eq!(bitmap::encode_bitmap(&[]), vec![0, 0]);
}

#[test]
fn bitmap_decode_malformed() {
    assert_eq!(bitmap::decode_bitmap(&[0]), None);
    assert_eq!(bitmap::decode_bitmap(&[0, 1]), None);
    assert_eq!(bitmap::decode_bitmap(&[0, 1, 0, 3, 1]), None);
    assert_eq!(bitmap::decode_bitmap(&[0, 0]), Some(Vec::new()));
    assert_eq!(bitmap::decode_bitmap(&[0, 1, 0, 2, 1, 2]), Some(vec![vec![0, 1, 1]]));
}

// ── High-level API ──────────────────────────────────────────────────

#[test]
fn high_level_malformed_gives_empty() {
    assert_eq!(decode::basic_rle(&[1]), Vec::<u8>::new());
    assert_eq!(decode::packbits(&[0x02, 0x41]), Vec::<u8>::new());
    assert_eq!(decode::bitmap_scanline(&[5], 4), None);
    assert_eq!(decode::bitmap_full(&[1]), None);
}

#[test]
fn high_level_encoders_match_modules() {
    assert_eq!(encode::basic_rle(b"AAB"), vec![2, b'A', 1, b'B']);
    assert_eq!(encode::packbits(b"AAABBC"), packbits::encode(b"AAABBC"));
    assert_eq!(encode::bitmap_scanline(&[1, 0]), vec![0, 1, 1]);
    assert_eq!(encode::bitmap_full(&[vec![1]]), vec![0, 1, 0, 2, 0, 1]);
}
