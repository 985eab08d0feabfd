use rr_mod_tool::bpe::{pack, select_pair, split_blocks, unpack, BpeError};

fn round_trip(input: &[u8]) {
    let packed = pack(input).unwrap();
    let back = unpack(packed.as_slice()).unwrap();
    assert_eq!(back, input.to_vec());
}

#[test]
fn empty_input_header() {
    // length zero: a bare header with both length fields zero and no blocks
    let packed = pack(&[]).unwrap();
    let expected: Vec<u8> = vec![
        0x42, 0x50, 0x45, 0x20, 0x00, 0x01, 0x00, 0x00, 0, 0, 0, 0, 0, 0, 0, 0,
    ];
    assert_eq!(packed, expected);
    assert_eq!(unpack(packed.as_slice()).unwrap(), Vec::<u8>::new());
}

#[test]
fn repeated_pair_block() {
    // the pair (A,B) occurs six times and byte 0 becomes its code
    let input = b"ABABABABABAB";
    let packed = pack(input).unwrap();
    // table: values 0..=1 substituted (0 -> (A,B), then 1 -> (0,0) from the
    // rewritten block), everything else in two not-substituted runs
    assert_eq!(packed[16], 0x01);
    assert_eq!(packed[17], 0x41);
    assert_eq!(packed[18], 0x42);
    assert_eq!(packed[19], 0x00);
    assert_eq!(packed[20], 0x00);
    let back = unpack(packed.as_slice()).unwrap();
    assert_eq!(back, input.to_vec());
}

#[test]
fn no_pair_three_times() {
    // no pair occurs three times: one block with an all-not-substituted
    // table, two runs of 128 values each
    let input = b"abc";
    let packed = pack(input).unwrap();
    assert_eq!(packed.len(), 16 + 3 + 2 + 3);
    assert_eq!(&packed[4..8], &[0x00, 0x01, 0x00, 0x00]); // reserved word
    assert_eq!(packed[16], 0xFF); // first run: values 0..=127
    assert_eq!(packed[17], 0x80); // marker: value 128, not substituted
    assert_eq!(packed[18], 0xFE); // second run: values 129..=255
    assert_eq!(packed[19], 3);
    assert_eq!(packed[20], 0);
    assert_eq!(&packed[21..24], b"abc");
    round_trip(input);
}

#[test]
fn block_split_at_4096() {
    // 4097 bytes: exactly two blocks of 4096 and 1 bytes
    let input = vec![7u8; 4097];
    let blocks = split_blocks(input.as_slice());
    assert_eq!(blocks.len(), 2);
    assert_eq!(blocks[0].bytes.len(), 4096);
    assert_eq!(blocks[1].bytes.len(), 1);
    let packed = pack(input.as_slice()).unwrap();
    // decompressed length field records 4097
    let dlen = u32::from_le_bytes([packed[12], packed[13], packed[14], packed[15]]);
    assert_eq!(dlen, 4097);
    assert_eq!(unpack(packed.as_slice()).unwrap(), input);
}

#[test]
fn block_split_at_distinct_cap() {
    // 256 distinct values: the 201st distinct byte starts a new block
    let input: Vec<u8> = (0u8..=255).collect();
    let blocks = split_blocks(input.as_slice());
    assert!(blocks.len() >= 2);
    assert_eq!(blocks[0].bytes.len(), 200);
    assert_eq!(blocks[0].bytes, (0u8..200).collect::<Vec<u8>>());
    assert_eq!(blocks[1].bytes[0], 200);
    round_trip(input.as_slice());
}

#[test]
fn round_trips_various() {
    round_trip(b"");
    round_trip(b"A");
    round_trip(b"AAAAAAAAAAAAAAAAAAAAAAAA");
    round_trip(b"the quick brown fox jumps over the lazy dog");
    let mut noisy = Vec::new();
    for i in 0..10000u32 {
        noisy.push((i * 7 + i / 13) as u8);
    }
    round_trip(noisy.as_slice());
    let mut zeros_tail = vec![1u8, 2, 3];
    zeros_tail.extend(std::iter::repeat(0u8).take(500));
    round_trip(zeros_tail.as_slice());
}

#[test]
fn decompress_pads_elided_zeros() {
    // a stream whose block holds three bytes but declares six: the tail is
    // zero-filled, and recompressing what came out decompresses the same
    let mut f: Vec<u8> = vec![0x42, 0x50, 0x45, 0x20, 0x00, 0x01, 0x00, 0x00];
    f.extend_from_slice(&8u32.to_le_bytes());
    f.extend_from_slice(&6u32.to_le_bytes());
    f.extend_from_slice(&[0xFF, 0x80, 0xFE, 3, 0, 1, 2, 3]);
    let first = unpack(f.as_slice()).unwrap();
    assert_eq!(first, vec![1, 2, 3, 0, 0, 0]);
    let again = unpack(pack(first.as_slice()).unwrap().as_slice()).unwrap();
    assert_eq!(again, first);
}

#[test]
fn unpack_rejects_bad_magic() {
    assert_eq!(unpack(b"oops"), Err(BpeError::BadMagic));
    assert_eq!(unpack(b""), Err(BpeError::BadMagic));
}

#[test]
fn unpack_rejects_bad_length() {
    // magic right, compressed length inconsistent with the stream length
    let mut f: Vec<u8> = vec![0x42, 0x50, 0x45, 0x20, 0x00, 0x01, 0x00, 0x00];
    f.extend_from_slice(&99u32.to_le_bytes());
    f.extend_from_slice(&0u32.to_le_bytes());
    assert_eq!(unpack(f.as_slice()), Err(BpeError::BadLength));
    assert_eq!(unpack(b"BPE \x00\x01\x00\x00"), Err(BpeError::BadLength));
}

#[test]
fn unpack_rejects_truncated_block() {
    let mut f: Vec<u8> = vec![0x42, 0x50, 0x45, 0x20, 0x00, 0x01, 0x00, 0x00];
    f.extend_from_slice(&1u32.to_le_bytes());
    f.extend_from_slice(&1u32.to_le_bytes());
    f.push(0x00); // a substituted-run control byte with nothing after it
    assert_eq!(unpack(f.as_slice()), Err(BpeError::BadBlock));
}

#[test]
fn selection_prefers_count_then_smallest_pair() {
    let mut counts = vec![0u32; 65536];
    counts[0x4142] = 5; // (A,B)
    counts[0x4241] = 5; // (B,A): same count, larger pair
    counts[0x0102] = 4;
    let picked = select_pair(&counts).unwrap();
    assert_eq!(picked, (0x41, 0x42));
    let mut low = vec![0u32; 65536];
    low[0x4142] = 2;
    assert_eq!(select_pair(&low), None);
}

#[test]
fn assigned_codes_avoid_used_bytes() {
    // compress a block over bytes A and B; every code its table assigns
    // must be a byte value the block never used
    let input = b"ABABABABABAB".to_vec();
    let mut used = vec![false; 256];
    used[0x41] = true;
    used[0x42] = true;
    let enc = rr_mod_tool::bpe::compress_block(input, &used);
    let (tbl, _) = rr_mod_tool::bpe::read_substitution_info(enc.as_slice(), 0).unwrap();
    for v in 0..256usize {
        if tbl[v].is_some() {
            assert!(v != 0x41 && v != 0x42);
        }
    }
    assert!(tbl[0].is_some());
    assert_eq!(tbl[0].unwrap(), (0x41, 0x42));
}

#[test]
fn detect_format_checks_magic() {
    assert!(rr_mod_tool::bpe::detect_format(b"BPE \x00\x01\x00\x00"));
    assert!(!rr_mod_tool::bpe::detect_format(b"PACH"));
    assert!(!rr_mod_tool::bpe::detect_format(b"BP"));
}
