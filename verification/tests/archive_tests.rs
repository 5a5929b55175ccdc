use silky_arc_tool::error::ArcError;
use silky_arc_tool::{
    build_archive, choose_payload, cipher_decrypt, cipher_encrypt, compress_payload,
    decrypt_name, encrypt_name, extract_entry, handle_pack, handle_unpack, host_relative_path,
    inflate, layout, normalize_separators, pack_data, pack_file, pack_name, read_metadata,
    FileEntry, PackFileInfo, SourceFile,
};

fn source(path: &str, data: &[u8]) -> SourceFile {
    SourceFile { path: path.to_string(), data: data.to_vec() }
}

fn repetitive(len: usize) -> Vec<u8> {
    let mut v = Vec::new();
    for i in 0..len {
        v.push(b"abcabcab"[i % 8]);
    }
    v
}

#[test]
fn test_unpack() {
    let files = vec![source("test.txt", b"test"), source("KT_A0000.OGG", &repetitive(600))];
    let archive = handle_pack(&files, true).unwrap();
    let unpacked = handle_unpack(&archive).unwrap();
    assert!(unpacked.iter().any(|f| f.name == "test.txt"));
    assert!(unpacked.iter().any(|f| f.name == "KT_A0000.OGG"));
}

#[test]
fn test_pack() {
    let files = vec![source("test.txt", b"test")];
    let plain = handle_pack(&files, false);
    assert!(plain.is_ok());
    let compressed = handle_pack(&files, true);
    assert!(compressed.is_ok());
}

#[test]
fn cipher_shifts_by_distance_from_the_end() {
    assert_eq!(cipher_encrypt(b"abc"), vec![b'a' - 3, b'b' - 2, b'c' - 1]);
    assert_eq!(cipher_decrypt(&[b'a' - 3, b'b' - 2, b'c' - 1]), b"abc".to_vec());
}

#[test]
fn cipher_wraps_modulo_256() {
    assert_eq!(cipher_encrypt(&[0, 0]), vec![254, 255]);
    assert_eq!(cipher_decrypt(&[255, 255]), vec![1, 0]);
}

#[test]
fn cipher_position_wraps_on_long_input() {
    let input = vec![7u8; 300];
    let out = cipher_encrypt(&input);
    assert_eq!(out[299], 6);
    assert_eq!(out[0], 7u8.wrapping_sub((300usize % 256) as u8));
    assert_eq!(out[44], 7u8.wrapping_sub(0));
    assert_eq!(cipher_decrypt(&out), input);
}

#[test]
fn cipher_of_nothing_is_nothing() {
    assert_eq!(cipher_encrypt(&[]), Vec::<u8>::new());
    assert_eq!(cipher_decrypt(&[]), Vec::<u8>::new());
}

#[test]
fn cipher_is_inverse_on_every_single_byte() {
    for b in 0..=255u8 {
        assert_eq!(cipher_decrypt(&cipher_encrypt(&[b, b])), vec![b, b]);
        assert_eq!(cipher_encrypt(&cipher_decrypt(&[b, b])), vec![b, b]);
    }
}

#[test]
fn cipher_keeps_different_inputs_apart() {
    assert_ne!(cipher_encrypt(b"ab"), cipher_encrypt(b"ba"));
    assert_ne!(cipher_encrypt(b"aa"), cipher_encrypt(b"ab"));
}

#[test]
fn encrypt_name_ascii() {
    assert_eq!(encrypt_name("a.txt").unwrap(), vec![b'a' - 5, b'.' - 4, b't' - 3, b'x' - 2, b't' - 1]);
}

#[test]
fn encrypt_name_uses_the_legacy_charset() {
    // U+3042 is 0x82 0xA0 in the legacy charset.
    assert_eq!(encrypt_name("\u{3042}").unwrap(), vec![0x82 - 2, 0xA0 - 1]);
    assert_eq!(decrypt_name(&[0x80, 0x9F]).unwrap(), "\u{3042}");
}

#[test]
fn name_round_trip() {
    for name in ["test.txt", "sub\\b.txt", "\u{65E5}\u{672C}\u{8A9E}.ogg", ""] {
        let encrypted = encrypt_name(name).unwrap();
        assert_eq!(decrypt_name(&encrypted).unwrap(), name);
    }
}

#[test]
fn encrypt_name_rejects_unmappable_text() {
    match encrypt_name("\u{1F600}.txt") {
        Err(ArcError::NameEncodeError(s)) => assert_eq!(s, "\u{1F600}.txt"),
        other => panic!("unexpected: {:?}", other),
    }
}

#[test]
fn decrypt_name_rejects_malformed_bytes() {
    // Deciphers to a lone lead byte 0x81.
    match decrypt_name(&[0x80]) {
        Err(ArcError::NameDecodeError(v)) => assert_eq!(v, vec![0x80]),
        other => panic!("unexpected: {:?}", other),
    }
}

#[test]
fn separators_are_normalized() {
    assert_eq!(normalize_separators("sub/dir/b.txt"), "sub\\dir\\b.txt");
    assert_eq!(normalize_separators("plain.txt"), "plain.txt");
    assert_eq!(host_relative_path("sub\\dir\\b.txt"), "sub/dir/b.txt");
}

#[test]
fn empty_archive_is_four_bytes() {
    let archive = handle_pack(&Vec::new(), false).unwrap();
    assert_eq!(archive, vec![4, 0, 0, 0]);
    let archive = handle_pack(&Vec::new(), true).unwrap();
    assert_eq!(archive, vec![4, 0, 0, 0]);
    assert!(handle_unpack(&archive).unwrap().is_empty());
}

#[test]
fn concrete_archive_bytes() {
    let files = vec![source("a.txt", b"hello"), source("sub/b.txt", b"")];
    let archive = handle_pack(&files, false).unwrap();
    let mut expected: Vec<u8> = Vec::new();
    // header: 4 + (13 + 5) + (13 + 9) = 44, little-endian
    expected.extend_from_slice(&[44, 0, 0, 0]);
    expected.push(5);
    expected.extend_from_slice(&encrypt_name("a.txt").unwrap());
    expected.extend_from_slice(&[0, 0, 0, 5, 0, 0, 0, 5, 0, 0, 0, 44]);
    expected.push(9);
    expected.extend_from_slice(&encrypt_name("sub\\b.txt").unwrap());
    expected.extend_from_slice(&[0, 0, 0, 0, 0, 0, 0, 0, 0, 0, 0, 49]);
    expected.extend_from_slice(b"hello");
    assert_eq!(archive, expected);
}

#[test]
fn concrete_scenario_round_trip() {
    let files = vec![source("a.txt", b"hello"), source("sub/b.txt", b"")];
    let archive = handle_pack(&files, false).unwrap();
    let entries = read_metadata(&archive).unwrap();
    assert_eq!(entries.len(), 2);
    for e in &entries {
        assert_eq!(e.compressed_size, e.original_size);
    }
    assert_eq!(entries[0].original_size, 5);
    assert_eq!(entries[1].original_size, 0);
    let unpacked = handle_unpack(&archive).unwrap();
    assert_eq!(unpacked.len(), 2);
    assert_eq!(unpacked[0].name, "a.txt");
    assert_eq!(unpacked[0].data, b"hello".to_vec());
    assert_eq!(unpacked[1].name, "sub\\b.txt");
    assert_eq!(unpacked[1].data, Vec::<u8>::new());
    assert_eq!(host_relative_path(&unpacked[1].name), "sub/b.txt");
}

fn tree() -> Vec<SourceFile> {
    vec![
        source("empty.bin", b""),
        source("a/b/c/deep.txt", b"deep"),
        source("\u{65E5}\u{672C}\u{8A9E}/\u{97F3}.ogg", &repetitive(5000)),
        source("short.txt", b"x"),
        source("zeros.bin", &vec![0u8; 10000]),
    ]
}

#[test]
fn round_trip_without_compression() {
    let files = tree();
    let archive = handle_pack(&files, false).unwrap();
    let unpacked = handle_unpack(&archive).unwrap();
    assert_eq!(unpacked.len(), files.len());
    for (u, f) in unpacked.iter().zip(files.iter()) {
        assert_eq!(host_relative_path(&u.name), f.path);
        assert_eq!(u.data, f.data);
    }
}

#[test]
fn round_trip_with_compression() {
    let files = tree();
    let archive = handle_pack(&files, true).unwrap();
    let plain = handle_pack(&files, false).unwrap();
    assert!(archive.len() < plain.len());
    let unpacked = handle_unpack(&archive).unwrap();
    assert_eq!(unpacked.len(), files.len());
    for (u, f) in unpacked.iter().zip(files.iter()) {
        assert_eq!(host_relative_path(&u.name), f.path);
        assert_eq!(u.data, f.data);
    }
}

#[test]
fn offsets_are_running_sums() {
    let files = tree();
    let archive = handle_pack(&files, true).unwrap();
    let end = u32::from_le_bytes([archive[0], archive[1], archive[2], archive[3]]);
    let entries = read_metadata(&archive).unwrap();
    let mut expected = end;
    for e in &entries {
        assert_eq!(e.offset, expected);
        assert!(e.offset >= end);
        assert!(e.compressed_size <= e.original_size);
        expected += e.compressed_size;
    }
    assert_eq!(expected as usize, archive.len());
}

#[test]
fn layout_of_prepared_files() {
    let files = vec![
        PackFileInfo { encrypted_name: vec![1, 2, 3], original_size: 10, compressed_data: vec![0; 7] },
        PackFileInfo { encrypted_name: vec![], original_size: 2, compressed_data: vec![9, 9] },
    ];
    let l = layout(&files).unwrap();
    assert_eq!(l.metadata_end, 4 + 16 + 13);
    assert_eq!(l.offsets, vec![33, 40]);
    let archive = build_archive(&files).unwrap();
    assert_eq!(archive.len(), 42);
    assert_eq!(&archive[..4], &[33, 0, 0, 0]);
    assert_eq!(&archive[4..20], &[3, 1, 2, 3, 0, 0, 0, 7, 0, 0, 0, 10, 0, 0, 0, 33]);
}

#[test]
fn big_endian_fields_are_written_most_significant_first() {
    let files = vec![
        PackFileInfo { encrypted_name: vec![], original_size: 0x0102_0304, compressed_data: vec![5; 0x0105] },
    ];
    let archive = build_archive(&files).unwrap();
    assert_eq!(&archive[..4], &[17, 0, 0, 0]);
    assert_eq!(&archive[4..17], &[0, 0, 0, 1, 5, 1, 2, 3, 4, 0, 0, 0, 17]);
    let entries = read_metadata(&archive).unwrap();
    assert_eq!(entries[0].compressed_size, 0x0105);
    assert_eq!(entries[0].original_size, 0x0102_0304);
    assert_eq!(entries[0].offset, 17);
}

#[test]
fn little_endian_header_is_read_least_significant_first() {
    // The header announces 0x0104 bytes of metadata; the archive is shorter.
    let mut archive = vec![4u8, 1, 0, 0];
    archive.extend_from_slice(&[0u8; 13]);
    assert!(matches!(read_metadata(&archive), Err(ArcError::Io(_))));
}

#[test]
fn names_longer_than_a_length_byte_are_refused() {
    let files = vec![
        PackFileInfo { encrypted_name: vec![b'a'; 256], original_size: 0, compressed_data: vec![] },
    ];
    assert!(layout(&files).is_none());
    assert!(matches!(build_archive(&files), Err(ArcError::InvalidFormat(_))));
    let long = "a".repeat(256);
    assert!(matches!(handle_pack(&vec![source(&long, b"")], false), Err(ArcError::InvalidFormat(_))));
    let fine = "a".repeat(255);
    assert!(handle_pack(&vec![source(&fine, b"")], false).is_ok());
}

#[test]
fn pack_reports_the_first_bad_name() {
    let files = vec![source("ok.txt", b"1"), source("dir/\u{1F600}", b"2"), source("\u{1F601}", b"3")];
    match handle_pack(&files, false) {
        Err(ArcError::NameEncodeError(s)) => assert_eq!(s, "dir\\\u{1F600}"),
        other => panic!("unexpected: {:?}", other),
    }
}

#[test]
fn compression_sentinel() {
    // One byte cannot shrink: it is stored as it is.
    let p = pack_file("x", b"z", true).unwrap();
    assert_eq!(p.compressed_data, b"z".to_vec());
    assert_eq!(p.original_size, 1);
    // Empty files are never compressed.
    let p = pack_file("x", b"", true).unwrap();
    assert_eq!(p.compressed_data, Vec::<u8>::new());
    assert_eq!(p.original_size, 0);
    // Repetitive data shrinks.
    let data = repetitive(4000);
    let p = pack_file("x", &data, true).unwrap();
    assert!(p.compressed_data.len() < data.len());
    assert_eq!(p.original_size, 4000);
    // Without the flag nothing is compressed.
    let p = pack_file("x", &data, false).unwrap();
    assert_eq!(p.compressed_data, data);
}

#[test]
fn choose_payload_keeps_only_what_is_strictly_smaller() {
    assert_eq!(choose_payload(b"abcd", Some(vec![1, 2, 3])), vec![1, 2, 3]);
    assert_eq!(choose_payload(b"abcd", Some(vec![1, 2, 3, 4])), b"abcd".to_vec());
    assert_eq!(choose_payload(b"abcd", Some(vec![1, 2, 3, 4, 5])), b"abcd".to_vec());
    assert_eq!(choose_payload(b"abcd", None), b"abcd".to_vec());
}

#[test]
fn compress_payload_changes_compressible_data() {
    let data = repetitive(2048);
    let stored = compress_payload(&data, true);
    assert_ne!(stored, data);
    assert!(stored.len() < data.len());
    assert_eq!(inflate(&stored, 2048).unwrap(), data);
    assert_eq!(compress_payload(&data, false), data);
}

#[test]
fn inflate_takes_equal_sizes_as_stored() {
    assert_eq!(inflate(b"hello", 5).unwrap(), b"hello".to_vec());
    assert_eq!(inflate(b"", 0).unwrap(), Vec::<u8>::new());
}

#[test]
fn inflate_reports_decompressor_failure() {
    // Eight literals of nine bits each cannot be written into a buffer of four bytes.
    let stored = [0xA0u8, 0x50, 0x28, 0x14, 0x0A, 0x05, 0x02, 0x81, 0x40];
    match inflate(&stored, 1) {
        Err(ArcError::LzssDecompressError(m)) => assert!(!m.is_empty()),
        other => panic!("unexpected: {:?}", other),
    }
    // With room for them they are eight bytes.
    assert_eq!(inflate(&stored, 2).unwrap(), vec![0x40u8; 8]);
}

#[test]
fn header_that_counts_from_the_end_of_itself_is_read_alike() {
    let files = vec![source("a.txt", b"hello"), source("sub/b.txt", b"")];
    let mut archive = handle_pack(&files, false).unwrap();
    archive[0] -= 4;
    let unpacked = handle_unpack(&archive).unwrap();
    assert_eq!(unpacked.len(), 2);
    assert_eq!(unpacked[0].data, b"hello".to_vec());
    assert_eq!(unpacked[1].name, "sub\\b.txt");
}

#[test]
fn truncated_archives_are_refused() {
    let files = vec![source("a.txt", b"hello"), source("sub/b.txt", b"")];
    let archive = handle_pack(&files, false).unwrap();
    let end = 44;
    for cut in 0..end {
        assert!(matches!(read_metadata(&archive[..cut]), Err(ArcError::Io(_))), "cut at {}", cut);
        assert!(matches!(handle_unpack(&archive[..cut]), Err(ArcError::Io(_))), "cut at {}", cut);
    }
    // The metadata is whole, the data is not.
    assert!(read_metadata(&archive[..end]).is_ok());
    assert!(matches!(handle_unpack(&archive[..end + 2]), Err(ArcError::Io(_))));
}

#[test]
fn entry_outside_the_archive_is_refused() {
    let entry = FileEntry {
        encrypted_name: vec![],
        name: String::new(),
        compressed_size: 4,
        original_size: 4,
        offset: 2,
    };
    assert!(matches!(extract_entry(&[1, 2, 3, 4, 5], &entry), Err(ArcError::Io(_))));
    assert_eq!(extract_entry(&[1, 2, 3, 4, 5, 6], &entry).unwrap(), vec![3, 4, 5, 6]);
}

#[test]
fn bad_name_in_metadata_is_reported_with_its_bytes() {
    let files = vec![
        PackFileInfo { encrypted_name: vec![0x80], original_size: 0, compressed_data: vec![] },
    ];
    let archive = build_archive(&files).unwrap();
    match handle_unpack(&archive) {
        Err(ArcError::NameDecodeError(v)) => assert_eq!(v, vec![0x80]),
        other => panic!("unexpected: {:?}", other),
    }
}


#[test]
fn yen_sign_is_encoded_as_a_backslash() {
    // The charset has one byte for both, so this name does not come back.
    let encrypted = encrypt_name("\u{A5}").unwrap();
    assert_eq!(encrypted, vec![0x5C - 1]);
    assert_eq!(decrypt_name(&encrypted).unwrap(), "\\");
}

#[test]
fn reading_past_the_end_says_so() {
    match read_metadata(&[4, 0]) {
        Err(ArcError::Io(m)) => assert_eq!(m, "failed to fill whole buffer"),
        other => panic!("unexpected: {:?}", other),
    }
    let entry = FileEntry {
        encrypted_name: vec![],
        name: String::new(),
        compressed_size: 4,
        original_size: 4,
        offset: 2,
    };
    match extract_entry(&[1, 2, 3], &entry) {
        Err(ArcError::Io(m)) => assert_eq!(m, "failed to fill whole buffer"),
        other => panic!("unexpected: {:?}", other),
    }
}

#[test]
fn byte_order_marks_are_read_in_the_legacy_charset() {
    // FF FE would announce UTF-16; in the legacy charset FF is no byte of any character.
    let utf16 = cipher_encrypt(&[0xFF, 0xFE, 0x61, 0x00]);
    match decrypt_name(&utf16) {
        Err(ArcError::NameDecodeError(v)) => assert_eq!(v, utf16),
        other => panic!("unexpected: {:?}", other),
    }
    let utf16_be = cipher_encrypt(&[0xFE, 0xFF, 0x00, 0x61]);
    assert!(matches!(decrypt_name(&utf16_be), Err(ArcError::NameDecodeError(_))));
    // EF BB BF would announce UTF-8 and vanish; here its bytes are characters of the name.
    let utf8 = cipher_encrypt(&[0xEF, 0xBB, 0xBF, 0x61]);
    match decrypt_name(&utf8) {
        Ok(name) => {
            assert_ne!(name, "a");
            assert!(name.ends_with('a'));
            assert!(name.chars().count() > 1);
        }
        Err(ArcError::NameDecodeError(v)) => assert_eq!(v, utf8),
        other => panic!("unexpected: {:?}", other),
    }
}

#[test]
fn names_are_prepared_before_data() {
    assert_eq!(pack_name("sub/b.txt").unwrap(), encrypt_name("sub\\b.txt").unwrap());
    match pack_name("sub/\u{1F600}") {
        Err(ArcError::NameEncodeError(s)) => assert_eq!(s, "sub\\\u{1F600}"),
        other => panic!("unexpected: {:?}", other),
    }
    let p = pack_data(vec![1, 2, 3], b"hello", false).unwrap();
    assert_eq!(p.encrypted_name, vec![1, 2, 3]);
    assert_eq!(p.original_size, 5);
    assert_eq!(p.compressed_data, b"hello".to_vec());
    let data = repetitive(3000);
    let p = pack_data(vec![], &data, true).unwrap();
    assert_eq!(p.original_size, 3000);
    assert_eq!(p.compressed_data, compress_payload(&data, true));
    assert!(p.compressed_data.len() < 3000);
}

#[test]
fn bad_name_wins_over_later_trouble() {
    let long = "a".repeat(300);
    let files = vec![source(&long, b"1"), source("\u{1F600}", b"2")];
    match handle_pack(&files, true) {
        Err(ArcError::NameEncodeError(s)) => assert_eq!(s, "\u{1F600}"),
        other => panic!("unexpected: {:?}", other),
    }
}
