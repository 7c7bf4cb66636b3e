use sstb::Compression;
use sstb::InnerReader;
use sstb::ReadCache;
use sstb::ReadOptions;
use sstb::SSTableBuilder;
use sstb::SortedBytesIterator;
use sstb::WriteOptions;

#[test]
fn test_bulk_round_trip() {
    let count: usize = 100_000;
    let mut it = SortedBytesIterator::new_first_last(32, b'a', b'z', count).unwrap();
    let mut writer = SSTableBuilder::new();
    let mut keys: Vec<Vec<u8>> = Vec::with_capacity(count);
    while let Some(key) = it.next() {
        writer.set(&key, &key).unwrap();
        keys.push(key);
    }
    assert_eq!(keys.len(), count);
    let file = writer.finish().unwrap();

    let mut reader = InnerReader::new(file, &ReadOptions::default()).unwrap();
    for key in &keys {
        assert_eq!(reader.get(key).unwrap().as_deref(), Some(key.as_slice()));
    }
    // Keys known to be absent: each written key with a suffix byte added.
    for key in keys.iter().take(50_000) {
        let mut absent = key.clone();
        absent.push(b'!');
        assert_eq!(reader.get(&absent).unwrap(), None);
    }
}

#[test]
fn test_bulk_compressed_with_bounded_cache() {
    let count: usize = 5_000;
    let mut it = SortedBytesIterator::new_first_last(16, b'a', b'z', count).unwrap();
    let mut options = WriteOptions::default();
    options.compression = Compression::Zlib;
    let mut writer = SSTableBuilder::new_with_options(&options);
    let mut keys: Vec<Vec<u8>> = Vec::with_capacity(count);
    while let Some(key) = it.next() {
        writer.set(&key, &key).unwrap();
        keys.push(key);
    }
    let file = writer.finish().unwrap();

    let mut opts = ReadOptions::default();
    opts.cache = Some(ReadCache::Blocks(4));
    let mut reader = InnerReader::new(file, &opts).unwrap();
    for key in &keys {
        assert_eq!(reader.get(key).unwrap().as_deref(), Some(key.as_slice()));
    }
    for key in keys.iter().rev() {
        assert_eq!(reader.get(key).unwrap().as_deref(), Some(key.as_slice()));
    }
}

#[test]
fn test_iterator_resets() {
    let mut it = SortedBytesIterator::new(3, 5).unwrap();
    let mut first_pass: Vec<Vec<u8>> = Vec::new();
    while let Some(k) = it.next() {
        first_pass.push(k);
    }
    assert_eq!(first_pass.len(), 5);
    assert_eq!(first_pass[0], b"aaa".to_vec());
    assert_eq!(first_pass[4], b"aae".to_vec());
    it.reset();
    let again = it.next().unwrap();
    assert_eq!(again, b"aaa".to_vec());
}
