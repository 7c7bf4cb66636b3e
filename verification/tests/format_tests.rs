use sstb::Compression;
use sstb::KVLength;
use sstb::KVOffset;
use sstb::Version;
use sstb::BloomConfig;
use sstb::GetOptions;
use sstb::ReadCache;
use sstb::ReadOptions;
use sstb::WriteOptions;
use sstb::SortedStringIterator;

#[test]
fn test_sequence() {
    let mut iter = SortedStringIterator::new_first_last(3, b'a', b'c');

    assert_eq!(iter.next(), Some("aaa".to_string()));
    assert_eq!(iter.next(), Some("aab".to_string()));
    assert_eq!(iter.next(), Some("aac".to_string()));
    assert_eq!(iter.next(), Some("aba".to_string()));
    assert_eq!(iter.next(), Some("abb".to_string()));
    assert_eq!(iter.next(), Some("abc".to_string()));
    assert_eq!(iter.next(), Some("aca".to_string()));
    assert_eq!(iter.next(), Some("acb".to_string()));
    assert_eq!(iter.next(), Some("acc".to_string()));
    assert_eq!(iter.next(), Some("baa".to_string()));
    assert_eq!(iter.next(), Some("bab".to_string()));
    assert_eq!(iter.next(), Some("bac".to_string()));
    assert_eq!(iter.next(), Some("bba".to_string()));
    assert_eq!(iter.next(), Some("bbb".to_string()));
    assert_eq!(iter.next(), Some("bbc".to_string()));
    assert_eq!(iter.next(), Some("bca".to_string()));
    assert_eq!(iter.next(), Some("bcb".to_string()));
    assert_eq!(iter.next(), Some("bcc".to_string()));
    assert_eq!(iter.next(), Some("caa".to_string()));
    assert_eq!(iter.next(), Some("cab".to_string()));
    assert_eq!(iter.next(), Some("cac".to_string()));
    assert_eq!(iter.next(), Some("cba".to_string()));
    assert_eq!(iter.next(), Some("cbb".to_string()));
    assert_eq!(iter.next(), Some("cbc".to_string()));
    assert_eq!(iter.next(), Some("cca".to_string()));
    assert_eq!(iter.next(), Some("ccb".to_string()));
    assert_eq!(iter.next(), Some("ccc".to_string()));

    assert_eq!(iter.next(), None);
    assert_eq!(iter.next(), None);
}

#[test]
fn test_kvlength_bounds() {
    let h = KVLength::new(3, 8).unwrap();
    assert_eq!(h.key_length, 3);
    assert_eq!(h.value_length, 8);
    assert!(matches!(
        KVLength::new(70_000, 0),
        Err(sstb::Error::KeyTooLong(n)) if n == 70_000
    ));
    assert_eq!(KVLength::encoded_size(), 6);
}

#[test]
fn test_kvoffset_bounds() {
    let h = KVOffset::new(5, 1234).unwrap();
    assert_eq!(h.key_length, 5);
    assert_eq!(h.offset, 1234);
    assert!(matches!(
        KVOffset::new(70_000, 0),
        Err(sstb::Error::KeyTooLong(_))
    ));
    assert_eq!(KVOffset::encoded_size(), 10);
}

#[test]
fn test_kvoffset_serialized_layout() {
    let h = KVOffset::new(5, 0x0102030405060708).unwrap();
    let mut out = Vec::new();
    h.serialize_into(&mut out);
    assert_eq!(
        out,
        vec![5, 0, 0x08, 0x07, 0x06, 0x05, 0x04, 0x03, 0x02, 0x01]
    );
    let parsed = KVOffset::deserialize_from_eof_is_ok(&out, 0).unwrap();
    let (h2, next) = parsed.unwrap();
    assert_eq!(h2.key_length, 5);
    assert_eq!(h2.offset, 0x0102030405060708);
    assert_eq!(next, 10);
    // An empty region is a regular end, not an error.
    assert!(KVOffset::deserialize_from_eof_is_ok(&out, 10).unwrap().is_none());
    // A truncated entry is an error.
    assert!(KVOffset::deserialize_from_eof_is_ok(&out[..4], 0).is_err());
}

#[test]
fn test_versions_and_tags() {
    let v = Version::current();
    assert_eq!(v.major, 2);
    assert_eq!(v.minor, 0);
    assert!(v.supported());
    assert!(!Version { major: 1, minor: 0 }.supported());
    assert_eq!(Compression::Plain.tag(), 0);
    assert_eq!(Compression::Zlib.tag(), 1);
    assert_eq!(Compression::Snappy.tag(), 2);
    assert_eq!(Compression::from_tag(2), Some(Compression::Snappy));
    assert_eq!(Compression::from_tag(3), None);
}

#[test]
fn test_options_builders() {
    let mut w = WriteOptions::new();
    w.compression(Compression::Zlib).flush_every(128).bloom(BloomConfig {
        bitmap_size: 1000,
        items_count: 100,
    });
    assert_eq!(w.compression, Compression::Zlib);
    assert_eq!(w.flush_every, 128);
    assert_eq!(w.bloom.bitmap_size, 1000);

    let mut r = ReadOptions::new();
    r.cache(Some(ReadCache::Blocks(32))).use_mmap(false).use_bloom(false).thread_buckets(
        Some(4),
    );
    assert!(matches!(r.cache, Some(ReadCache::Blocks(32))));
    assert!(!r.use_mmap);
    assert!(!r.use_bloom);
    assert_eq!(r.thread_buckets, Some(4));

    let mut g = GetOptions::new();
    assert!(g.use_bloom);
    g.use_bloom(false);
    assert!(!g.use_bloom);

    let d = WriteOptions::default();
    assert_eq!(d.flush_every, 4096);
    assert_eq!(d.bloom.bitmap_size, 1_000_000);
    assert_eq!(d.compression, Compression::Plain);
}

#[test]
fn test_small_chunks_make_many_index_entries() {
    let mut options = WriteOptions::default();
    options.flush_every = 16;
    let mut writer = sstb::SSTableBuilder::new_with_options(&options);
    let keys: Vec<&[u8]> = vec![b"aa", b"bb", b"cc", b"dd", b"ee", b"ff"];
    for k in &keys {
        writer.set(k, b"value-bytes").unwrap();
    }
    let file = writer.finish().unwrap();
    let mut reader = sstb::InnerReader::new(file, &ReadOptions::default()).unwrap();
    for k in &keys {
        assert_eq!(reader.get(k).unwrap(), Some(b"value-bytes".to_vec()));
    }
    assert_eq!(reader.get(b"ab").unwrap(), None);
    assert_eq!(reader.get(b"zz").unwrap(), None);
}

#[test]
fn test_owned_index_parse_and_bounds() {
    // Three entries: "aa" -> 93, "mm" -> 200, "zz" -> 350.
    let mut region = Vec::new();
    for (key, off) in [(b"aa", 93u64), (b"mm", 200), (b"zz", 350)] {
        KVOffset::new(key.len(), off).unwrap().serialize_into(&mut region);
        region.extend_from_slice(key);
    }
    let ix = sstb::OwnedIndex::from_reader(&region).unwrap();
    assert_eq!(sstb::find_bounds(&ix, b"aa", 500), Some((93, 200)));
    assert_eq!(sstb::find_bounds(&ix, b"ab", 500), Some((93, 200)));
    assert_eq!(sstb::find_bounds(&ix, b"mm", 500), Some((200, 350)));
    assert_eq!(sstb::find_bounds(&ix, b"zz", 500), Some((350, 500)));
    assert_eq!(sstb::find_bounds(&ix, b"zzz", 500), Some((350, 500)));
    assert_eq!(sstb::find_bounds(&ix, b"a", 500), None);

    // Out-of-order keys are rejected.
    let mut unsorted = Vec::new();
    for (key, off) in [(b"mm", 93u64), (b"aa", 200)] {
        KVOffset::new(key.len(), off).unwrap().serialize_into(&mut unsorted);
        unsorted.extend_from_slice(key);
    }
    assert!(sstb::OwnedIndex::from_reader(&unsorted).is_err());

    // A truncated region is rejected.
    assert!(sstb::OwnedIndex::from_reader(&region[..region.len() - 1]).is_err());

    // The borrowed variant also validates the expected length.
    assert!(sstb::MemIndex::from_static_buf(&region, region.len() as u64).is_ok());
    assert!(sstb::MemIndex::from_static_buf(&region, region.len() as u64 + 1).is_err());
}

#[test]
fn test_reference_block_scan() {
    // Two records: ("k1", "v-one"), ("k2", "v-two").
    let mut chunk = Vec::new();
    for (key, value) in [(b"k1", b"v-one"), (b"k2", b"v-two")] {
        KVLength::new(key.len(), value.len()).unwrap().serialize_into(&mut chunk);
        chunk.extend_from_slice(key);
        chunk.extend_from_slice(value);
    }
    let block = sstb::ReferenceBlock::new(&chunk);
    assert_eq!(block.find_key_rb(b"k1").unwrap(), Some(b"v-one" as &[u8]));
    assert_eq!(block.find_key_rb(b"k2").unwrap(), Some(b"v-two" as &[u8]));
    assert_eq!(block.find_key_rb(b"k0").unwrap(), None);
    assert_eq!(block.find_key_rb(b"k3").unwrap(), None);
    assert_eq!(
        sstb::find_value_offset_v1(&chunk, b"k1").unwrap(),
        Some((8, 13))
    );
    // A length header that overruns the buffer is an error.
    assert!(sstb::find_value_offset_v1(&chunk[..chunk.len() - 2], b"k2").is_err());
}
