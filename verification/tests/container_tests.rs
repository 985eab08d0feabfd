use rr_mod_tool::epac::{EpacEntry, EpacError, SideEntry};
use rr_mod_tool::listing::{name_num, sort_by_name, FileRec};
use rr_mod_tool::pach::PachError;
use rr_mod_tool::tex::TexError;

fn rec(name: &[u8], data: &[u8]) -> FileRec {
    FileRec { name: name.to_vec(), data: data.to_vec() }
}

#[test]
fn numeric_name_keys() {
    assert_eq!(name_num(b"0"), 0);
    assert_eq!(name_num(b"10"), 10);
    assert_eq!(name_num(b"007"), 7);
    assert_eq!(name_num(b"+12"), 12);
    assert_eq!(name_num(b"abc"), 0);
    assert_eq!(name_num(b"12.bin"), 0);
    assert_eq!(name_num(b""), 0);
    assert_eq!(name_num(b"4294967295"), u32::MAX);
    assert_eq!(name_num(b"4294967296"), 0);
}

#[test]
fn sort_is_numeric_and_stable() {
    let files = vec![
        rec(b"10", b"j"),
        rec(b"2", b"b"),
        rec(b"007", b"g"),
        rec(b"abc", b"z"),
        rec(b"xyz", b"y"),
    ];
    let sorted = sort_by_name(files);
    let names: Vec<&[u8]> = sorted.iter().map(|r| r.name.as_slice()).collect();
    // keys: 10, 2, 7, 0, 0 -> the two zero-key names keep their order
    assert_eq!(names, vec![&b"abc"[..], b"xyz", b"2", b"007", b"10"]);
}

#[test]
fn tex_pack_two_files() {
    let files = vec![rec(b"foo.bin", b"hello"), rec(b"bar.png", b"world!")];
    let packed = rr_mod_tool::tex::pack(files).unwrap();
    // two files, data region at 16 + 2*32 = 80
    assert_eq!(&packed[0..4], &2u32.to_le_bytes());
    assert_eq!(
        &packed[4..16],
        &[0x00, 0x01, 0x00, 0x00, 0x00, 0x00, 0x00, 0x00, 0x10, 0x00, 0x00, 0x00]
    );
    // both names parse to zero, so the given order is kept
    assert_eq!(&packed[16..19], b"foo");
    assert_eq!(&packed[32..35], b"bin");
    let off0 = u32::from_le_bytes([packed[40], packed[41], packed[42], packed[43]]);
    assert_eq!(off0, 80);
    assert_eq!(&packed[80..85], b"hello");
    let back = rr_mod_tool::tex::unpack(packed.as_slice()).unwrap();
    assert_eq!(back.len(), 2);
    assert_eq!(back[0].name, b"foo.bin".to_vec());
    assert_eq!(back[0].data, b"hello".to_vec());
    assert_eq!(back[1].name, b"bar.png".to_vec());
    assert_eq!(back[1].data, b"world!".to_vec());
}

#[test]
fn tex_sixteen_char_stem_four_char_ext() {
    let files = vec![rec(b"0123456789abcdef.abcd", b"x")];
    let packed = rr_mod_tool::tex::pack(files).unwrap();
    let back = rr_mod_tool::tex::unpack(packed.as_slice()).unwrap();
    assert_eq!(back[0].name, b"0123456789abcdef.abcd".to_vec());
    assert_eq!(back[0].data, b"x".to_vec());
}

#[test]
fn tex_rejects_bad_names() {
    assert_eq!(
        rr_mod_tool::tex::pack(vec![rec(b"noext", b"x")]),
        Err(TexError::BadName)
    );
    assert_eq!(
        rr_mod_tool::tex::pack(vec![rec(b"0123456789abcdefg.bin", b"x")]),
        Err(TexError::BadName)
    );
    assert_eq!(
        rr_mod_tool::tex::pack(vec![rec(b"a.toolong", b"x")]),
        Err(TexError::BadName)
    );
    assert_eq!(rr_mod_tool::tex::pack(vec![]), Err(TexError::NoFiles));
}

#[test]
fn tex_unpack_rejects_malformed() {
    assert_eq!(rr_mod_tool::tex::unpack(b"short"), Err(TexError::TooShort));
    let mut zeroed = vec![0u8; 16];
    zeroed[0] = 0;
    assert_eq!(
        rr_mod_tool::tex::unpack(zeroed.as_slice()),
        Err(TexError::NoFiles)
    );
    let mut huge = vec![0u8; 16];
    huge[0] = 9; // nine entries claimed, none present
    assert_eq!(
        rr_mod_tool::tex::unpack(huge.as_slice()),
        Err(TexError::TooShort)
    );
    // one entry whose data range runs past the end
    let mut bad = vec![0u8; 48];
    bad[0] = 1;
    bad[16] = b'a';
    bad[32] = b'b';
    bad[36] = 0xFF; // length 255
    bad[40] = 48; // offset 48
    assert_eq!(
        rr_mod_tool::tex::unpack(bad.as_slice()),
        Err(TexError::BadEntry)
    );
}

#[test]
fn pach_pack_numeric_tree() {
    // {0, 1, 10, 2}, each three bytes: entries in order 0, 1, 2, 10 with
    // cumulative 4-byte-aligned offsets
    let files = vec![
        rec(b"0", b"aaa"),
        rec(b"1", b"bbb"),
        rec(b"10", b"ccc"),
        rec(b"2", b"ddd"),
    ];
    let packed = rr_mod_tool::pach::pack(files).unwrap();
    assert_eq!(&packed[0..4], b"PACH");
    assert_eq!(&packed[4..8], &4u32.to_le_bytes());
    let nos: Vec<u32> = (0..4)
        .map(|i| {
            let e = 8 + 12 * i;
            u32::from_le_bytes([packed[e], packed[e + 1], packed[e + 2], packed[e + 3]])
        })
        .collect();
    assert_eq!(nos, vec![0, 1, 2, 10]);
    let offs: Vec<u32> = (0..4)
        .map(|i| {
            let e = 12 + 12 * i;
            u32::from_le_bytes([packed[e], packed[e + 1], packed[e + 2], packed[e + 3]])
        })
        .collect();
    assert_eq!(offs, vec![0, 4, 8, 12]);
    let back = rr_mod_tool::pach::unpack(packed.as_slice()).unwrap();
    let names: Vec<&[u8]> = back.iter().map(|r| r.name.as_slice()).collect();
    assert_eq!(names, vec![&b"0"[..], b"1", b"2", b"10"]);
    assert_eq!(back[2].data, b"ddd".to_vec());
    assert_eq!(back[3].data, b"ccc".to_vec());
}

#[test]
fn pach_skips_non_digit_names() {
    let files = vec![rec(b"3", b"keep"), rec(b"notes.txt", b"skip")];
    let packed = rr_mod_tool::pach::pack(files).unwrap();
    let back = rr_mod_tool::pach::unpack(packed.as_slice()).unwrap();
    assert_eq!(back.len(), 1);
    assert_eq!(back[0].name, b"3".to_vec());
    assert_eq!(back[0].data, b"keep".to_vec());
}

#[test]
fn pach_errors() {
    assert_eq!(
        rr_mod_tool::pach::pack(vec![rec(b"x.y", b"skip")]),
        Err(PachError::NoFiles)
    );
    assert_eq!(
        rr_mod_tool::pach::pack(vec![rec(b"99999999999", b"over")]),
        Err(PachError::BadName)
    );
    assert_eq!(rr_mod_tool::pach::unpack(b"EPAC"), Err(PachError::BadMagic));
    assert_eq!(
        rr_mod_tool::pach::unpack(b"PACH\x00\x00\x00\x00"),
        Err(PachError::NoFiles)
    );
}

#[test]
fn pach_detect_format() {
    assert!(rr_mod_tool::pach::detect_format(b"PACH\x01\x00\x00\x00"));
    assert!(!rr_mod_tool::pach::detect_format(b"BPE "));
}

#[test]
fn epac_divider_and_file() {
    // one divider "ETST", one 0x1000-byte file "FILE": the file comes
    // back byte-identical and every fixed region sits where it should
    let data = vec![0xA5u8; 0x1000];
    let entries = vec![
        EpacEntry::Divider { name: b"ETST".to_vec(), field: vec![9, 8, 7, 6] },
        EpacEntry::File { name: b"FILE".to_vec(), data: data.clone() },
    ];
    let hf = vec![1, 2, 3, 4];
    let ff = vec![5, 6, 7, 8];
    let packed = rr_mod_tool::epac::pack(&hf, &ff, entries).unwrap();
    assert_eq!(packed.len(), 0x4000 + 0x1000 + 0x800);
    assert_eq!(&packed[0..4], b"EPAC");
    assert_eq!(&packed[4..8], &[1, 2, 3, 4]);
    // data region size: 0x1000 padded to 0x1000 (already 2048-aligned)
    assert_eq!(&packed[8..12], &0x1000u32.to_le_bytes());
    assert_eq!(&packed[12..16], &[7, 0, 0, 0]);
    assert_eq!(&packed[0x800..0x804], b"ETST");
    assert_eq!(&packed[0x804..0x808], &[9, 8, 7, 6]);
    assert_eq!(&packed[0x80C..0x810], b"FILE");
    assert_eq!(&packed[0x5000..0x5010], b"EOP5/1.10\x00\x00\x00\x00\x00\x00\x00");
    assert_eq!(&packed[0x5400..0x5404], &[5, 6, 7, 8]);
    let (hf2, ff2, back) = rr_mod_tool::epac::unpack(packed.as_slice()).unwrap();
    assert_eq!(hf2, vec![1, 2, 3, 4]);
    assert_eq!(ff2, vec![5, 6, 7, 8]);
    assert_eq!(back.len(), 2);
    match &back[0] {
        EpacEntry::Divider { name, field } => {
            assert_eq!(name, &b"ETST".to_vec());
            assert_eq!(field, &vec![9, 8, 7, 6]);
        },
        _ => panic!("first entry should be the divider"),
    }
    match &back[1] {
        EpacEntry::File { name, data: d } => {
            assert_eq!(name, &b"FILE".to_vec());
            assert_eq!(d, &data);
        },
        _ => panic!("second entry should be the file"),
    }
}

#[test]
fn epac_unpack_file_with_slack() {
    // a 0x6800-byte archive: one divider "ETST", one 0x1000-byte file
    // "FILE", and unused room in its data region; the file comes back with
    // exactly 0x1000 bytes
    let mut f = vec![0u8; 0x6800];
    f[0..4].copy_from_slice(b"EPAC");
    f[4..8].copy_from_slice(&[1, 2, 3, 4]);
    f[8..12].copy_from_slice(&0x2000u32.to_le_bytes());
    f[12..16].copy_from_slice(&[7, 0, 0, 0]);
    f[0x800..0x804].copy_from_slice(b"ETST");
    f[0x804..0x808].copy_from_slice(&[0xDE, 0xAD, 0xBE, 0xEF]);
    f[0x80C..0x810].copy_from_slice(b"FILE");
    f[0x810..0x814].copy_from_slice(&0u32.to_le_bytes());
    f[0x814..0x818].copy_from_slice(&16u32.to_le_bytes()); // 16 * 256 = 0x1000
    for i in 0..0x1000 {
        f[0x4000 + i] = (i % 251) as u8;
    }
    f[0x6000..0x6010].copy_from_slice(b"EOP5/1.10\x00\x00\x00\x00\x00\x00\x00");
    f[0x6400..0x6404].copy_from_slice(&[5, 6, 7, 8]);
    let (hf, ff, entries) = rr_mod_tool::epac::unpack(f.as_slice()).unwrap();
    assert_eq!(hf, vec![1, 2, 3, 4]);
    assert_eq!(ff, vec![5, 6, 7, 8]);
    assert_eq!(entries.len(), 2);
    match &entries[0] {
        EpacEntry::Divider { name, field } => {
            assert_eq!(name, &b"ETST".to_vec());
            assert_eq!(field, &vec![0xDE, 0xAD, 0xBE, 0xEF]);
        },
        _ => panic!("first entry should be the divider"),
    }
    match &entries[1] {
        EpacEntry::File { name, data } => {
            assert_eq!(name, &b"FILE".to_vec());
            assert_eq!(data.len(), 0x1000);
            assert_eq!(data[5], 5);
        },
        _ => panic!("second entry should be the file"),
    }
}

#[test]
fn epac_divider_only() {
    // no packed files, one divider: the table holds it and then terminates
    let entries = vec![EpacEntry::Divider { name: b"EDIV".to_vec(), field: vec![0, 0, 0, 0] }];
    let packed =
        rr_mod_tool::epac::pack(&vec![0, 0, 0, 0], &vec![0, 0, 0, 0], entries).unwrap();
    assert_eq!(packed.len(), 0x4800);
    assert_eq!(&packed[0x800..0x804], b"EDIV");
    assert_eq!(&packed[0x80C..0x810], &[0, 0, 0, 0]);
    let (_, _, back) = rr_mod_tool::epac::unpack(packed.as_slice()).unwrap();
    assert_eq!(back.len(), 1);
}

#[test]
fn epac_short_file_comes_back_in_units() {
    // a 100-byte file is recorded as one 256-byte unit and comes back
    // zero-padded to 256 bytes
    let entries = vec![EpacEntry::File { name: b"ABCD".to_vec(), data: vec![1u8; 100] }];
    let packed =
        rr_mod_tool::epac::pack(&vec![0, 0, 0, 0], &vec![0, 0, 0, 0], entries).unwrap();
    let (_, _, back) = rr_mod_tool::epac::unpack(packed.as_slice()).unwrap();
    match &back[0] {
        EpacEntry::File { name: _, data } => {
            assert_eq!(data.len(), 256);
            assert_eq!(&data[..100], &vec![1u8; 100][..]);
            assert_eq!(&data[100..], &vec![0u8; 156][..]);
        },
        _ => panic!("expected a file entry"),
    }
}

#[test]
fn epac_errors() {
    assert_eq!(
        rr_mod_tool::epac::pack(&vec![0, 0, 0, 0], &vec![0, 0, 0, 0], vec![]),
        Err(EpacError::NoEntries)
    );
    // a file named like a divider is refused
    assert_eq!(
        rr_mod_tool::epac::pack(
            &vec![0, 0, 0, 0],
            &vec![0, 0, 0, 0],
            vec![EpacEntry::File { name: b"EVIL".to_vec(), data: vec![1] }]
        ),
        Err(EpacError::BadEntry)
    );
    match rr_mod_tool::epac::unpack(b"nope") {
        Err(EpacError::BadMagic) => {},
        _ => panic!("expected a magic refusal"),
    }
}

#[test]
fn epac_sidecar_round_trip() {
    let sides = vec![
        SideEntry::Divider { name: b"ETST".to_vec(), field: vec![1, 2, 3, 4] },
        SideEntry::FileName { name: b"FILE".to_vec() },
        SideEntry::FileName { name: b"NEXT".to_vec() },
    ];
    let hf = vec![0xAA, 0xBB, 0xCC, 0xDD];
    let ff = vec![0x11, 0x22, 0x33, 0x44];
    let bytes = rr_mod_tool::epac::encode_sidecar(&hf, &ff, &sides);
    let (hf2, ff2, back) = rr_mod_tool::epac::parse_sidecar(bytes.as_slice()).unwrap();
    assert_eq!(hf2, hf);
    assert_eq!(ff2, ff);
    assert_eq!(back.len(), 3);
    match &back[0] {
        SideEntry::Divider { name, field } => {
            assert_eq!(name, &b"ETST".to_vec());
            assert_eq!(field, &vec![1, 2, 3, 4]);
        },
        _ => panic!("expected the divider"),
    }
    match &back[2] {
        SideEntry::FileName { name } => assert_eq!(name, &b"NEXT".to_vec()),
        _ => panic!("expected a file name"),
    }
}

#[test]
fn epac_sidecar_from_entries() {
    let entries = vec![
        EpacEntry::Divider { name: b"EONE".to_vec(), field: vec![4, 3, 2, 1] },
        EpacEntry::File { name: b"DATA".to_vec(), data: vec![9; 512] },
    ];
    let sides = rr_mod_tool::epac::entries_to_sidecar(&entries);
    assert_eq!(sides.len(), 2);
    match &sides[1] {
        SideEntry::FileName { name } => assert_eq!(name, &b"DATA".to_vec()),
        _ => panic!("expected a file name"),
    }
    assert_eq!(rr_mod_tool::epac::parse_sidecar(b"tiny"), Err(EpacError::BadSidecar));
}

#[test]
fn nested_tex_inside_bpe() {
    // pack a directory as TEX, compress the archive, decompress it, unpack
    // it: byte-identical recovery end to end
    let files = vec![rec(b"1.bin", b"first file"), rec(b"2.bin", b"second file")];
    let tex_bytes = rr_mod_tool::tex::pack(files).unwrap();
    let compressed = rr_mod_tool::bpe::pack(tex_bytes.as_slice()).unwrap();
    let restored = rr_mod_tool::bpe::unpack(compressed.as_slice()).unwrap();
    assert_eq!(restored, tex_bytes);
    let back = rr_mod_tool::tex::unpack(restored.as_slice()).unwrap();
    assert_eq!(back.len(), 2);
    assert_eq!(back[0].name, b"1.bin".to_vec());
    assert_eq!(back[0].data, b"first file".to_vec());
    assert_eq!(back[1].name, b"2.bin".to_vec());
    assert_eq!(back[1].data, b"second file".to_vec());
}

#[test]
fn tex_data_aligned_to_sixteen() {
    let files = vec![rec(b"1.a", b"abc"), rec(b"2.b", b"defghijkl")];
    let packed = rr_mod_tool::tex::pack(files).unwrap();
    let off1 = u32::from_le_bytes([packed[16 + 32 + 24], packed[16 + 32 + 25], packed[16 + 32 + 26], packed[16 + 32 + 27]]);
    assert_eq!(off1 % 16, 0);
    assert_eq!(off1, 96); // 80 + 3 padded to 16
    assert_eq!(packed.len() % 16, 0);
}
