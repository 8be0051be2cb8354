use std::io::Write;

use deep_dive::archive::{
    entries_from_records, files_from_records, ArchiveError, TarRecord,
    compute_content_hash, decompress_to_vec, detect_compression, digest_to_hex, normalize_path,
    oci_blob_path, parse_tar_entries, strip_command_prefix, CompressionType,
};

#[test]
fn test_detect_compression_gzip() {
    assert_eq!(
        detect_compression(&[0x1f, 0x8b, 0x08, 0x00]),
        CompressionType::Gzip
    );
}

#[test]
fn test_detect_compression_zstd() {
    assert_eq!(
        detect_compression(&[0x28, 0xb5, 0x2f, 0xfd]),
        CompressionType::Zstd
    );
}

#[test]
fn test_detect_compression_uncompressed() {
    assert_eq!(
        detect_compression(&[0x62, 0x69, 0x6e, 0x2f]),
        CompressionType::Uncompressed
    );
}

#[test]
fn test_detect_compression_empty() {
    assert_eq!(detect_compression(&[]), CompressionType::Uncompressed);
}

#[test]
fn test_strip_command_prefix_nop() {
    assert_eq!(
        strip_command_prefix("/bin/sh -c #(nop) ADD file:abc123 in /"),
        "ADD file:abc123 in /"
    );
}

#[test]
fn test_strip_command_prefix_shell() {
    assert_eq!(
        strip_command_prefix("/bin/sh -c mkdir -p /root/example"),
        "mkdir -p /root/example"
    );
}

#[test]
fn test_strip_command_prefix_no_prefix() {
    assert_eq!(
        strip_command_prefix("COPY README.md /README.md"),
        "COPY README.md /README.md"
    );
}

#[test]
fn test_compute_content_hash() {
    let hash1 = compute_content_hash(b"hello world");
    let hash2 = compute_content_hash(b"hello world");
    let hash3 = compute_content_hash(b"different content");
    assert_eq!(hash1, hash2);
    assert_ne!(hash1, hash3);
}

#[test]
fn test_normalize_path() {
    assert_eq!(normalize_path("./bin/bash"), "bin/bash");
    assert_eq!(normalize_path("/bin/bash"), "bin/bash");
    assert_eq!(normalize_path("./usr/local/bin"), "usr/local/bin");
    assert_eq!(normalize_path("bin/bash"), "bin/bash");
}

#[test]
fn test_digest_to_hex() {
    assert_eq!(digest_to_hex("sha256:abc123").unwrap(), "abc123");
    assert!(digest_to_hex("invalid").is_err());
}

#[test]
fn test_decompress_layer_gzip() {
    let plain = b"hello world this is a test";
    let mut compressed = Vec::new();
    {
        let mut encoder =
            flate2::write::GzEncoder::new(&mut compressed, flate2::Compression::default());
        encoder.write_all(plain).unwrap();
    }
    let decompressed = decompress_to_vec(&compressed).unwrap();
    assert_eq!(decompressed, plain);
}

#[test]
fn decompress_zstd_round_trip() {
    let plain = b"zstd layer bytes".to_vec();
    let compressed = zstd::stream::encode_all(&plain[..], 3).unwrap();
    assert_eq!(detect_compression(&compressed), CompressionType::Zstd);
    assert_eq!(decompress_to_vec(&compressed).unwrap(), plain);
}

#[test]
fn test_decompress_layer_uncompressed() {
    let data = b"hello world uncompressed".to_vec();
    let output = decompress_to_vec(&data).unwrap();
    assert_eq!(output, b"hello world uncompressed");
}

#[test]
fn blob_paths_keep_the_hex_digest() {
    assert_eq!(oci_blob_path("sha256:ff00").unwrap(), "blobs/sha256/ff00");
    assert!(oci_blob_path("md5:ff00").is_err());
}

#[test]
fn strip_command_prefix_trims_what_is_left() {
    assert_eq!(strip_command_prefix("/bin/sh -c    echo hi  "), "echo hi");
}

#[test]
fn normalize_path_of_only_dots_is_empty() {
    assert_eq!(normalize_path("./"), "");
    assert_eq!(normalize_path("././//x"), "x");
}

#[test]
fn corrupt_gzip_is_an_error() {
    assert!(decompress_to_vec(&[0x1f, 0x8b, 0x00]).is_err());
}

#[test]
fn empty_tar_has_no_entries() {
    let data = vec![0u8; 1024];
    let entries = parse_tar_entries(&data).unwrap();
    assert!(entries.is_empty());
}

#[test]
fn content_hash_is_xxh64_with_seed_zero() {
    assert_eq!(compute_content_hash(b""), 0xEF46_DB37_51D8_E999);
}

/// A tar archive of the given entries; an entry whose mode field is `None`
/// gets an unreadable mode.
fn tar_of(entries: &[(&str, tar::EntryType, &[u8], Option<u32>)]) -> Vec<u8> {
    let mut out: Vec<u8> = Vec::new();
    for (path, kind, data, mode) in entries {
        let mut header = tar::Header::new_old();
        header.set_path(path).unwrap();
        header.set_entry_type(*kind);
        header.set_size(data.len() as u64);
        header.set_uid(0);
        header.set_gid(0);
        header.set_mtime(0);
        match mode {
            Some(m) => header.set_mode(*m),
            None => header.as_old_mut().mode = *b"zzzzzzz\0",
        }
        header.set_cksum();
        out.extend_from_slice(header.as_bytes());
        out.extend_from_slice(data);
        let pad = (512 - data.len() % 512) % 512;
        out.extend(std::iter::repeat(0u8).take(pad));
    }
    out.extend(std::iter::repeat(0u8).take(1024));
    out
}

#[test]
fn skipped_entry_with_unreadable_header_is_not_an_error() {
    let data = tar_of(&[
        ("./", tar::EntryType::Directory, b"", None),
        ("a.txt", tar::EntryType::Regular, b"hi", Some(0o644)),
    ]);
    let entries = parse_tar_entries(&data).unwrap();
    assert_eq!(entries.len(), 1);
    assert_eq!(entries[0].path, "a.txt");
    assert_eq!(entries[0].mode, 0o644);
    assert_eq!(entries[0].content, b"hi");
}

#[test]
fn listed_entry_with_unreadable_header_is_an_error() {
    let data = tar_of(&[("a.txt", tar::EntryType::Regular, b"hi", None)]);
    assert!(parse_tar_entries(&data).is_err());
}

fn record(path: &str, type_byte: u8, mode: Result<u32, &str>, uid: Result<u64, &str>) -> TarRecord {
    TarRecord {
        path: path.to_string(),
        type_byte,
        size: Ok(2),
        mode: mode.map_err(std::io::Error::other),
        uid: uid.map_err(std::io::Error::other),
        gid: Ok(0),
        linkname: Ok(None),
        data: Ok(b"hi".to_vec()),
    }
}

#[test]
fn first_field_error_of_first_unreadable_record_is_returned() {
    let records = vec![
        record("./", b'5', Err("skipped"), Ok(0)),
        record("a.txt", b'0', Ok(0o644), Ok(0)),
        record("b.txt", b'0', Err("bad mode"), Err("bad uid")),
        record("c.txt", b'0', Err("later"), Ok(0)),
    ];
    match entries_from_records(records) {
        Err(ArchiveError::Io(e)) => assert_eq!(e.to_string(), "bad mode"),
        Err(_) => panic!("expected a read error"),
        Ok(_) => panic!("expected an error"),
    }
}

#[test]
fn files_from_records_reports_the_first_unreadable_bytes() {
    let mut bad = record("b", b'0', Ok(0), Ok(0));
    bad.data = Err(std::io::Error::other("short read"));
    let records = vec![record("a", b'0', Ok(0), Ok(0)), bad];
    match files_from_records(records) {
        Err(ArchiveError::Io(e)) => assert_eq!(e.to_string(), "short read"),
        Err(_) => panic!("expected a read error"),
        Ok(_) => panic!("expected an error"),
    }
    let files = files_from_records(vec![record("a", b'0', Ok(0), Ok(0))]).unwrap();
    assert_eq!(files, vec![("a".to_string(), b"hi".to_vec())]);
}
