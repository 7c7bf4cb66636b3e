use sstb::Compression;
use sstb::GetOptions;
use sstb::InnerReader;
use sstb::ReadOptions;
use sstb::SSTableBuilder;
use sstb::WriteOptions;
use sstb::open_uncompressed;

fn build_basic_table(compression: Compression) -> Vec<u8> {
    let mut options = WriteOptions::default();
    options.compression = compression;
    let mut writer = SSTableBuilder::new_with_options(&options);
    writer.set(b"bar", b"some bar").unwrap();
    writer.set(b"fail", b"some fail").unwrap();
    writer.set(b"foo", b"some foo").unwrap();
    writer.finish().unwrap()
}

fn check_basic_reads(file: Vec<u8>) {
    let mut reader = InnerReader::new(file, &ReadOptions::default()).unwrap();
    assert_eq!(reader.get(b"foo").unwrap(), Some(b"some foo".to_vec()));
    assert_eq!(reader.get(b"bar").unwrap(), Some(b"some bar".to_vec()));
    assert_eq!(reader.get(b"fail").unwrap(), Some(b"some fail".to_vec()));
    assert_eq!(reader.get(b"foobar").unwrap(), None);
    assert_eq!(reader.get(b"a").unwrap(), None);
    assert_eq!(reader.get(b"zzz").unwrap(), None);
    // Ask again so answers also come from the chunk cache.
    assert_eq!(reader.get(b"foo").unwrap(), Some(b"some foo".to_vec()));
    assert_eq!(reader.get(b"foobar").unwrap(), None);
}

#[test]
fn test_uncompressed_write_read() {
    check_basic_reads(build_basic_table(Compression::Plain));
}

#[test]
fn test_zlib_write_read() {
    check_basic_reads(build_basic_table(Compression::Zlib));
}

#[test]
fn test_snappy_write_read() {
    check_basic_reads(build_basic_table(Compression::Snappy));
}

#[test]
fn test_without_bloom_filter() {
    let file = build_basic_table(Compression::Plain);
    let mut reader = InnerReader::new(file, &ReadOptions::default()).unwrap();
    let opts = GetOptions { use_bloom: false };
    assert_eq!(
        reader.get_with_options(b"foo", Some(opts)).unwrap(),
        Some(b"some foo".to_vec())
    );
    assert_eq!(reader.get_with_options(b"foobar", Some(opts)).unwrap(), None);
}

#[test]
fn test_mmap_variant_uncompressed() {
    let file = build_basic_table(Compression::Plain);
    // Lookups go through a shared reference: no locks, no mutability.
    let reader = open_uncompressed(file, &ReadOptions::default()).unwrap();
    assert_eq!(
        reader.get_shared(b"bar", None).unwrap(),
        Some(b"some bar".to_vec())
    );
    assert_eq!(
        reader.get_shared(b"foo", None).unwrap(),
        Some(b"some foo".to_vec())
    );
    assert_eq!(reader.get_shared(b"foobar", None).unwrap(), None);
    assert_eq!(
        reader
            .get_shared(b"foobar", Some(GetOptions { use_bloom: false }))
            .unwrap(),
        None
    );
}

#[test]
fn test_mmap_variant_rejects_compressed() {
    let file = build_basic_table(Compression::Snappy);
    let r = open_uncompressed(file, &ReadOptions::default());
    assert!(matches!(
        r,
        Err(sstb::Error::CantUseCompressedFileWithMultiThreadedMmap)
    ));
}

#[test]
fn test_unfinished_table_rejected() {
    let mut file = build_basic_table(Compression::Plain);
    // The `finished` flag sits after the magic, the version tag and the
    // four u64 lengths and the compression tag of the metadata block.
    assert_eq!(file[44], 1);
    file[44] = 0;
    let r = InnerReader::new(file, &ReadOptions::default());
    assert!(matches!(r, Err(sstb::Error::InvalidData(_))));
}

#[test]
fn test_truncated_table_rejected() {
    let file = build_basic_table(Compression::Plain);
    let truncated = file[..file.len() - 1].to_vec();
    let r = InnerReader::new(truncated, &ReadOptions::default());
    assert!(matches!(r, Err(sstb::Error::InvalidData(_))));
}

#[test]
fn test_bad_magic_rejected() {
    let mut file = build_basic_table(Compression::Plain);
    file[0] = 0x7f;
    let r = InnerReader::new(file, &ReadOptions::default());
    assert!(matches!(r, Err(sstb::Error::InvalidData(_))));
}

#[test]
fn test_unsupported_version_rejected() {
    let mut file = build_basic_table(Compression::Plain);
    file[4] = 9;
    let r = InnerReader::new(file, &ReadOptions::default());
    assert!(matches!(r, Err(sstb::Error::UnsupportedVersion(_))));
}

#[test]
fn test_key_too_long() {
    let mut writer = SSTableBuilder::new();
    let long_key = vec![b'a'; 65536];
    let r = writer.set(&long_key, b"v");
    assert!(matches!(r, Err(sstb::Error::KeyTooLong(n)) if n == 65536));
    let max_key = vec![b'a'; 65535];
    assert!(writer.set(&max_key, b"v").is_ok());
}

#[test]
fn test_keys_must_ascend() {
    let mut writer = SSTableBuilder::new();
    writer.set(b"foo", b"1").unwrap();
    assert!(matches!(
        writer.set(b"bar", b"2"),
        Err(sstb::Error::ProgrammingError(_))
    ));
    assert!(matches!(
        writer.set(b"foo", b"3"),
        Err(sstb::Error::ProgrammingError(_))
    ));
    writer.set(b"foz", b"4").unwrap();
}

#[test]
fn test_empty_table() {
    let writer = SSTableBuilder::new();
    let file = writer.finish().unwrap();
    let mut reader = InnerReader::new(file, &ReadOptions::default()).unwrap();
    assert_eq!(reader.get(b"anything").unwrap(), None);
}

#[test]
fn test_empty_value() {
    let mut writer = SSTableBuilder::new();
    writer.set(b"gone", b"").unwrap();
    writer.set(b"here", b"x").unwrap();
    let file = writer.finish().unwrap();
    let mut reader = InnerReader::new(file, &ReadOptions::default()).unwrap();
    assert_eq!(reader.get(b"gone").unwrap(), Some(Vec::new()));
    assert_eq!(reader.get(b"here").unwrap(), Some(b"x".to_vec()));
}

#[test]
fn test_corrupt_compressed_chunk() {
    let mut file = build_basic_table(Compression::Zlib);
    // Mangle the first byte of the data region: the chunk frame's header.
    file[93] ^= 0xff;
    let mut reader = InnerReader::new(file, &ReadOptions::default()).unwrap();
    assert!(matches!(
        reader.get(b"foo"),
        Err(sstb::Error::CompressionError(_))
    ));
}
