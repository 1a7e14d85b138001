//! Interoperability with a widely used tape-archive implementation: what
//! the codec writes must be readable by it, and what it writes must be
//! decodable by the codec.
use std::io::Read;

use s3sync::codec::{decode_archive, ArchiveWriter};

#[test]
fn produced_archive_is_readable_by_tar_crate() {
    let cases: Vec<(&[u8], Vec<u8>)> = vec![
        (b"first.txt", b"hello tar".to_vec()),
        (b"dir/second.bin", (0..700u32).map(|i| (i % 256) as u8).collect()),
        (b"third", Vec::new()),
    ];
    let mut w = ArchiveWriter::new();
    for (name, data) in &cases {
        w.append(&name.to_vec(), data).unwrap();
    }
    let bytes = w.finalize();

    let mut archive = tar::Archive::new(&bytes[..]);
    let mut seen = Vec::new();
    for entry in archive.entries().unwrap() {
        let mut entry = entry.unwrap();
        let name = entry.path_bytes().to_vec();
        let mut data = Vec::new();
        entry.read_to_end(&mut data).unwrap();
        seen.push((name, data));
    }
    assert_eq!(seen.len(), cases.len());
    for ((seen_name, seen_data), (name, data)) in seen.iter().zip(cases.iter()) {
        assert_eq!(seen_name, &name.to_vec());
        assert_eq!(seen_data, data);
    }
}

#[test]
fn tar_crate_archive_is_decodable() {
    let cases: Vec<(&str, Vec<u8>)> = vec![
        ("one.txt", b"written by the tar crate".to_vec()),
        ("two/three.bin", vec![1u8, 2, 3, 4, 5]),
    ];
    let mut builder = tar::Builder::new(Vec::new());
    for (name, data) in &cases {
        let mut header = tar::Header::new_gnu();
        header.set_size(data.len() as u64);
        header.set_cksum();
        builder.append_data(&mut header, name, &data[..]).unwrap();
    }
    let bytes = builder.into_inner().unwrap();

    let entries = decode_archive(&bytes).unwrap();
    assert_eq!(entries.len(), cases.len());
    for (entry, (name, data)) in entries.iter().zip(cases.iter()) {
        assert_eq!(entry.name, name.as_bytes().to_vec());
        assert_eq!(&entry.data, data);
    }
}
