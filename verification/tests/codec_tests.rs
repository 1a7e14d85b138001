use s3sync::codec::{decode_archive, ArchiveWriter, CodecError, MAX_NAME};

fn build_archive(entries: &[(&[u8], &[u8])]) -> Vec<u8> {
    let mut w = ArchiveWriter::new();
    for (name, data) in entries {
        w.append(&name.to_vec(), &data.to_vec()).unwrap();
    }
    w.finalize()
}

#[test]
fn empty_archive_is_two_zero_blocks() {
    let bytes = build_archive(&[]);
    assert_eq!(bytes.len(), 1024);
    assert!(bytes.iter().all(|b| *b == 0));
    let entries = decode_archive(&bytes).unwrap();
    assert_eq!(entries.len(), 0);
}

#[test]
fn single_entry_round_trip() {
    let bytes = build_archive(&[(b"hello.txt", b"hello, world")]);
    assert_eq!(bytes.len(), 512 + 512 + 1024);
    let entries = decode_archive(&bytes).unwrap();
    assert_eq!(entries.len(), 1);
    assert_eq!(entries[0].name, b"hello.txt".to_vec());
    assert_eq!(entries[0].data, b"hello, world".to_vec());
}

#[test]
fn multi_entry_round_trip_keeps_order_and_payloads() {
    let cases: &[(&[u8], &[u8])] = &[
        (b"a", b""),
        (b"b/nested/path.bin", &[0u8, 1, 2, 3, 255]),
        (b"c", b"x"),
    ];
    let bytes = build_archive(cases);
    let entries = decode_archive(&bytes).unwrap();
    assert_eq!(entries.len(), 3);
    for (entry, (name, data)) in entries.iter().zip(cases.iter()) {
        assert_eq!(entry.name, name.to_vec());
        assert_eq!(entry.data, data.to_vec());
    }
}

#[test]
fn zero_length_payload_round_trips() {
    let bytes = build_archive(&[(b"empty", b"")]);
    assert_eq!(bytes.len(), 512 + 1024);
    let entries = decode_archive(&bytes).unwrap();
    assert_eq!(entries.len(), 1);
    assert_eq!(entries[0].name, b"empty".to_vec());
    assert_eq!(entries[0].data, Vec::<u8>::new());
}

#[test]
fn payload_exactly_one_block_round_trips() {
    let payload = vec![7u8; 512];
    let bytes = build_archive(&[(b"block", &payload)]);
    assert_eq!(bytes.len(), 512 + 512 + 1024);
    let entries = decode_archive(&bytes).unwrap();
    assert_eq!(entries[0].data, payload);
}

#[test]
fn large_payload_round_trips() {
    let payload: Vec<u8> = (0..100_000u32).map(|i| (i % 251) as u8).collect();
    let bytes = build_archive(&[(b"big.bin", &payload)]);
    let entries = decode_archive(&bytes).unwrap();
    assert_eq!(entries.len(), 1);
    assert_eq!(entries[0].data, payload);
}

#[test]
fn duplicate_names_are_kept_in_order() {
    let bytes = build_archive(&[(b"same", b"first"), (b"same", b"second")]);
    let entries = decode_archive(&bytes).unwrap();
    assert_eq!(entries.len(), 2);
    assert_eq!(entries[0].data, b"first".to_vec());
    assert_eq!(entries[1].data, b"second".to_vec());
}

#[test]
fn empty_name_is_rejected() {
    let mut w = ArchiveWriter::new();
    assert_eq!(w.append(&Vec::new(), &b"x".to_vec()), Err(CodecError::EmptyName));
}

#[test]
fn name_longer_than_field_is_rejected() {
    let mut w = ArchiveWriter::new();
    let long = vec![b'n'; MAX_NAME + 1];
    assert_eq!(w.append(&long, &b"x".to_vec()), Err(CodecError::NameTooLong));
    let exact = vec![b'n'; MAX_NAME];
    assert!(w.append(&exact, &b"x".to_vec()).is_ok());
}

#[test]
fn name_with_nul_is_rejected() {
    let mut w = ArchiveWriter::new();
    assert_eq!(w.append(&b"a\0b".to_vec(), &b"x".to_vec()), Err(CodecError::NameHasNul));
}

#[test]
fn rejected_entry_leaves_archive_unchanged() {
    let mut w = ArchiveWriter::new();
    w.append(&b"kept".to_vec(), &b"data".to_vec()).unwrap();
    let _ = w.append(&Vec::new(), &b"dropped".to_vec());
    let entries = decode_archive(&w.finalize()).unwrap();
    assert_eq!(entries.len(), 1);
    assert_eq!(entries[0].name, b"kept".to_vec());
}

#[test]
fn garbage_bytes_fail_to_decode() {
    let garbage = vec![0xabu8; 2048];
    assert!(decode_archive(&garbage).is_err());
}

#[test]
fn short_input_fails_to_decode() {
    assert_eq!(decode_archive(&vec![0u8; 100]).unwrap_err(), CodecError::Truncated);
}

#[test]
fn missing_terminator_fails_to_decode() {
    let bytes = build_archive(&[(b"a", b"payload")]);
    let truncated: Vec<u8> = bytes[..bytes.len() - 1024].to_vec();
    assert_eq!(decode_archive(&truncated).unwrap_err(), CodecError::Truncated);
}

#[test]
fn corrupted_checksum_fails_to_decode() {
    let mut bytes = build_archive(&[(b"a", b"payload")]);
    // Flip one payload byte: the checksum only covers the header, so this
    // still decodes; flip a header byte instead and it must not.
    bytes[600] ^= 0xff;
    assert!(decode_archive(&bytes).is_ok());
    bytes[0] ^= 0xff;
    assert_eq!(decode_archive(&bytes).unwrap_err(), CodecError::BadHeader);
}

/// Recomputes a header's checksum (sum of the block with the checksum
/// field read as spaces) and stores it GNU-style: six octal digits, a
/// NUL, a space.
fn rewrite_cksum_gnu_style(block: &mut [u8]) {
    let mut sum: u32 = 0;
    for (i, b) in block.iter().enumerate() {
        sum += if (148..156).contains(&i) { 0x20 } else { *b as u32 };
    }
    let gnu = format!("{:06o}\0 ", sum);
    block[148..156].copy_from_slice(gnu.as_bytes());
}

#[test]
fn gnu_style_checksum_field_is_accepted() {
    let mut bytes = build_archive(&[(b"a", b"data")]);
    rewrite_cksum_gnu_style(&mut bytes[0..512]);
    let entries = decode_archive(&bytes).unwrap();
    assert_eq!(entries.len(), 1);
    assert_eq!(entries[0].name, b"a".to_vec());
    assert_eq!(entries[0].data, b"data".to_vec());
}

#[test]
fn space_terminated_size_field_is_accepted() {
    let mut bytes = build_archive(&[(b"a", b"data")]);
    assert_eq!(bytes[135], 0);
    bytes[135] = b' ';
    rewrite_cksum_gnu_style(&mut bytes[0..512]);
    let entries = decode_archive(&bytes).unwrap();
    assert_eq!(entries[0].data, b"data".to_vec());
}

#[test]
fn bytes_after_the_terminator_are_ignored() {
    let mut bytes = build_archive(&[(b"a", b"data")]);
    bytes.extend(std::iter::repeat(0xff).take(300));
    let entries = decode_archive(&bytes).unwrap();
    assert_eq!(entries.len(), 1);
}
