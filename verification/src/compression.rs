//! Compression adapters: a uniform compressor / uncompressor interface
//! with three instantiations — identity, deflate-style (zlib) and a fast
//! LZ77-family codec (snappy).
//!
//! Each chunk of a table is its own compression frame: compressing a
//! chunk's bytes yields a self-delimiting frame, and decompressing that
//! frame yields exactly the chunk's bytes back. The outside codecs are
//! deterministic functions of their input, so their outputs are named by
//! uninterpreted spec functions and the round trip is stated of them.

use vstd::prelude::*;
use crate::error::Error;
use crate::types::Compression;

verus! {

/// The bytes `flate2`'s zlib encoder produces, at the default compression
/// level, for the given input. A function of the input alone.
pub uninterp spec fn zlib_of(data: Seq<u8>) -> Seq<u8>;

/// The bytes `snap`'s frame encoder produces for the given input. A
/// function of the input alone.
pub uninterp spec fn snap_of(data: Seq<u8>) -> Seq<u8>;

/// One compression frame of the configured algorithm: the identity for
/// uncompressed tables.
pub open spec fn spec_frame_of(c: Compression, data: Seq<u8>) -> Seq<u8> {
    match c {
        Compression::Plain => data,
        Compression::Zlib => zlib_of(data),
        Compression::Snappy => snap_of(data),
    }
}

/// Relies on `flate2::write::ZlibEncoder` (`new` at the default level,
/// `write_all`, `finish`): writing into a `Vec` cannot fail (its errors
/// come from the sink alone, so the unwraps cannot fire), the output is
/// one complete zlib frame determined by the input alone, and a frame is
/// never empty (it always carries a header and a checksum).
#[verifier::external_body]
fn zlib_compress_frame(data: &[u8]) -> (r: Vec<u8>)
    ensures
        r@ == zlib_of(data@),
        r@.len() > 0,
{
    let mut enc = flate2::write::ZlibEncoder::new(Vec::new(), flate2::Compression::default());
    std::io::Write::write_all(&mut enc, data).unwrap();
    enc.finish().unwrap()
}

/// Relies on `snap::write::FrameEncoder` (`new`, `write_all`,
/// `into_inner`): writing into a `Vec` cannot fail (so the unwraps cannot
/// fire) and the output frame is determined by the input alone. The
/// stream identifier is written lazily with the first chunk, so a frame
/// of nothing is empty and only a frame of data is guaranteed nonempty.
#[verifier::external_body]
fn snap_compress_frame(data: &[u8]) -> (r: Vec<u8>)
    ensures
        r@ == snap_of(data@),
        data@.len() > 0 ==> r@.len() > 0,
{
    let mut enc = snap::write::FrameEncoder::new(Vec::new());
    std::io::Write::write_all(&mut enc, data).unwrap();
    enc.into_inner().unwrap()
}

/// Relies on `flate2::read::ZlibDecoder` with `read_to_end`: decompressing
/// a frame the zlib encoder produced yields exactly the encoder's input
/// (the codec is lossless); any other outcome surfaces as an error value.
#[verifier::external_body]
fn zlib_uncompress_frame(buf: &[u8]) -> (r: Result<Vec<u8>, Error>)
    ensures
        r matches Ok(v) ==> forall|d: Seq<u8>| buf@ == zlib_of(d) ==> v@ == d,
        r is Err ==> forall|d: Seq<u8>| buf@ != zlib_of(d),
{
    let mut dec = flate2::read::ZlibDecoder::new(std::io::Cursor::new(buf));
    let mut out = Vec::with_capacity(buf.len());
    match std::io::Read::read_to_end(&mut dec, &mut out) {
        Ok(_) => Ok(out),
        Err(_) => Err(Error::CompressionError("zlib decode failed")),
    }
}

/// Relies on `snap::read::FrameDecoder` with `read_to_end`: decompressing
/// a frame the snappy encoder produced yields exactly the encoder's input
/// (the codec is lossless); any other outcome surfaces as an error value.
#[verifier::external_body]
fn snap_uncompress_frame(buf: &[u8]) -> (r: Result<Vec<u8>, Error>)
    ensures
        r matches Ok(v) ==> forall|d: Seq<u8>| buf@ == snap_of(d) ==> v@ == d,
        r is Err ==> forall|d: Seq<u8>| buf@ != snap_of(d),
{
    let mut dec = snap::read::FrameDecoder::new(std::io::Cursor::new(buf));
    let mut out = Vec::with_capacity(buf.len());
    match std::io::Read::read_to_end(&mut dec, &mut out) {
        Ok(_) => Ok(out),
        Err(_) => Err(Error::CompressionError("snappy decode failed")),
    }
}

/// An output adapter that turns raw bytes into one compression frame.
pub trait Compressor: Sized {
    /// Which algorithm this compressor implements.
    spec fn algo(&self) -> Compression;

    /// Compress a whole frame.
    fn compress_frame(&self, data: &[u8]) -> (r: Vec<u8>)
        ensures
            r@ == spec_frame_of(self.algo(), data@),
            data@.len() > 0 ==> r@.len() > 0,
    ;
}

/// A pure function from a compression frame back to the raw bytes.
pub trait Uncompress: Sized {
    /// Which algorithm this uncompressor implements.
    spec fn algo(&self) -> Compression;

    /// Decompress one frame. Succeeds with the original bytes on every
    /// frame the matching compressor produced.
    fn uncompress(&self, buf: &[u8]) -> (r: Result<Vec<u8>, Error>)
        ensures
            forall|d: Seq<u8>|
                buf@ == spec_frame_of(self.algo(), d) ==> (r matches Ok(v) && v@ == d),
    ;
}

/// The zlib compressor, at the default compression level.
pub struct ZlibCompressor;

impl Compressor for ZlibCompressor {
    open spec fn algo(&self) -> Compression {
        Compression::Zlib
    }

    fn compress_frame(&self, data: &[u8]) -> (r: Vec<u8>) {
        zlib_compress_frame(data)
    }
}

/// The zlib uncompressor.
pub struct ZlibUncompress;

impl Uncompress for ZlibUncompress {
    open spec fn algo(&self) -> Compression {
        Compression::Zlib
    }

    fn uncompress(&self, buf: &[u8]) -> (r: Result<Vec<u8>, Error>) {
        zlib_uncompress_frame(buf)
    }
}

/// The snappy compressor.
pub struct SnappyCompressor;

impl Compressor for SnappyCompressor {
    open spec fn algo(&self) -> Compression {
        Compression::Snappy
    }

    fn compress_frame(&self, data: &[u8]) -> (r: Vec<u8>) {
        snap_compress_frame(data)
    }
}

/// The snappy uncompressor.
pub struct SnappyUncompress;

impl Uncompress for SnappyUncompress {
    open spec fn algo(&self) -> Compression {
        Compression::Snappy
    }

    fn uncompress(&self, buf: &[u8]) -> (r: Result<Vec<u8>, Error>) {
        snap_uncompress_frame(buf)
    }
}

/// Creates fresh compressors, so the writer can reset its compression
/// context at chunk boundaries.
pub trait CompressorFactory<C: Compressor>: Sized {
    /// The algorithm of every compressor this factory makes.
    spec fn algo(&self) -> Compression;

    /// Make a fresh compressor.
    fn make(&self) -> (r: C)
        ensures
            r.algo() == self.algo(),
    ;
}

/// Factory for `ZlibCompressor`s.
pub struct ZlibCompressorFactory;

impl ZlibCompressorFactory {
    pub fn new() -> (r: Self) {
        ZlibCompressorFactory
    }
}

impl CompressorFactory<ZlibCompressor> for ZlibCompressorFactory {
    open spec fn algo(&self) -> Compression {
        Compression::Zlib
    }

    fn make(&self) -> (r: ZlibCompressor) {
        ZlibCompressor
    }
}

/// Factory for `SnappyCompressor`s.
pub struct SnappyCompressorFactory;

impl SnappyCompressorFactory {
    pub fn new() -> (r: Self) {
        SnappyCompressorFactory
    }
}

impl CompressorFactory<SnappyCompressor> for SnappyCompressorFactory {
    open spec fn algo(&self) -> Compression {
        Compression::Snappy
    }

    fn make(&self) -> (r: SnappyCompressor) {
        SnappyCompressor
    }
}

/// Compress one frame with the selected algorithm; the identity for
/// uncompressed tables.
pub fn compress_frame(c: Compression, data: &[u8]) -> (r: Vec<u8>)
    ensures
        r@ == spec_frame_of(c, data@),
        data@.len() > 0 ==> r@.len() > 0,
{
    match c {
        Compression::Plain => {
            let mut out: Vec<u8> = Vec::new();
            out.extend_from_slice(data);
            proof {
                assert(out@ =~= data@);
            }
            out
        },
        Compression::Zlib => zlib_compress_frame(data),
        Compression::Snappy => snap_compress_frame(data),
    }
}

/// Decompress one frame of the selected algorithm; the identity for
/// uncompressed tables.
pub fn uncompress_frame(c: Compression, buf: &[u8]) -> (r: Result<Vec<u8>, Error>)
    ensures
        forall|d: Seq<u8>| buf@ == spec_frame_of(c, d) ==> (r matches Ok(v) && v@ == d),
{
    match c {
        Compression::Plain => {
            let mut out: Vec<u8> = Vec::new();
            out.extend_from_slice(buf);
            proof {
                assert(out@ =~= buf@);
            }
            Ok(out)
        },
        Compression::Zlib => zlib_uncompress_frame(buf),
        Compression::Snappy => snap_uncompress_frame(buf),
    }
}


/// The concatenation of the frames of a sequence of chunks, each chunk
/// compressed on its own: the data region of a table.
pub open spec fn spec_frames_concat(c: Compression, chunks: Seq<Seq<u8>>) -> Seq<u8>
    decreases chunks.len(),
{
    if chunks.len() == 0 {
        Seq::empty()
    } else {
        spec_frames_concat(c, chunks.drop_last()) + spec_frame_of(c, chunks.last())
    }
}

/// Closing one more chunk appends its frame.
pub proof fn lemma_frames_concat_push(c: Compression, chunks: Seq<Seq<u8>>, chunk: Seq<u8>)
    ensures
        spec_frames_concat(c, chunks.push(chunk)) == spec_frames_concat(c, chunks) + spec_frame_of(
            c,
            chunk,
        ),
{
    let all = chunks.push(chunk);
    assert(all.drop_last() =~= chunks);
    assert(all.last() == chunk);
}


/// Closing chunks one more at a time: the first `i + 1` frames are the
/// first `i` frames followed by the frame of chunk `i`.
pub proof fn lemma_frames_concat_take_succ(c: Compression, chunks: Seq<Seq<u8>>, i: int)
    requires
        0 <= i < chunks.len(),
    ensures
        spec_frames_concat(c, chunks.take(i + 1)) == spec_frames_concat(c, chunks.take(i))
            + spec_frame_of(c, chunks[i]),
{
    assert(chunks.take(i + 1).drop_last() =~= chunks.take(i));
    assert(chunks.take(i + 1).last() == chunks[i]);
}

/// The data region splits at any chunk boundary.
pub proof fn lemma_frames_concat_split(c: Compression, chunks: Seq<Seq<u8>>, i: int)
    requires
        0 <= i <= chunks.len(),
    ensures
        spec_frames_concat(c, chunks) == spec_frames_concat(c, chunks.take(i))
            + spec_frames_concat(c, chunks.skip(i)),
    decreases chunks.len(),
{
    if i == chunks.len() {
        assert(chunks.take(i) =~= chunks);
        assert(chunks.skip(i) =~= Seq::<Seq<u8>>::empty());
        assert(spec_frames_concat(c, chunks) =~= spec_frames_concat(c, chunks.take(i))
            + spec_frames_concat(c, chunks.skip(i)));
    } else {
        let dl = chunks.drop_last();
        lemma_frames_concat_split(c, dl, i);
        assert(dl.take(i) =~= chunks.take(i));
        let s1 = chunks.skip(i);
        assert(s1.drop_last() =~= dl.skip(i));
        assert(s1.last() == chunks.last());
        assert(spec_frames_concat(c, s1) == spec_frames_concat(c, dl.skip(i)) + spec_frame_of(
            c,
            chunks.last(),
        ));
        assert(spec_frames_concat(c, chunks) =~= spec_frames_concat(c, chunks.take(i))
            + spec_frames_concat(c, chunks.skip(i)));
    }
}

} // verus!
