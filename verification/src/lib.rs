//! Sorted string tables (SSTables): immutable, sorted key-value tables in
//! a compact on-disk format, with a verified write and read path over byte
//! buffers.
//!
//! The writer consumes strictly ascending keys and emits length-prefixed
//! records grouped into chunks (one compression frame each), a sparse
//! index naming every chunk's first key, and a bloom filter. The readers
//! parse that format back, reject anything malformed or unfinished, and
//! serve point lookups that answer exactly what was written.
//!
//! File and network plumbing stays outside: the writer returns the
//! finished table's bytes, and the readers take a table's bytes.

pub mod block_reader;
pub mod bloom;
pub mod compress_ctx_writer;
pub mod compression;
pub mod error;
pub mod lexorder;
pub mod ondisk_format;
pub mod options;
pub mod page_cache;
pub mod posreader;
pub mod poswriter;
pub mod reader;
pub mod sorted_bytes_iterator;
pub mod sorted_string_iterator;
pub mod types;
pub mod writer;

pub use block_reader::ReferenceBlock;
pub use block_reader::find_value_offset_v1;
pub use compress_ctx_writer::CompressionContextWriter;
pub use compress_ctx_writer::CompressionContextWriterImpl;
pub use compress_ctx_writer::UncompressedWriter;
pub use compression::SnappyCompressorFactory;
pub use compression::SnappyUncompress;
pub use compression::ZlibCompressorFactory;
pub use compression::ZlibUncompress;
pub use error::Error;
pub use lexorder::Cmp;
pub use ondisk_format::KVLength;
pub use ondisk_format::KVOffset;
pub use options::BloomConfig;
pub use options::GetOptions;
pub use options::ReadCache;
pub use options::ReadOptions;
pub use options::WriteOptions;
pub use page_cache::PageCache;
pub use page_cache::StaticBufCache;
pub use posreader::PosReader;
pub use poswriter::PosWriter;
pub use reader::InnerReader;
pub use reader::MemIndex;
pub use reader::OwnedIndex;
pub use reader::find_bounds;
pub use reader::open_uncompressed;
pub use reader::parse_table_head;
pub use reader::read_metadata;
pub use sorted_bytes_iterator::SortedBytesIterator;
pub use sorted_string_iterator::SortedStringIterator;
pub use types::Compression;
pub use types::Version;
pub use writer::FrameWriter;
pub use writer::RawSSTableWriter;
pub use writer::SSTableBuilder;
