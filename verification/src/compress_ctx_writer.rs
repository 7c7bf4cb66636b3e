//! A writer that maybe compresses its input, one frame per chunk.
//!
//! The difference with a plain writer is `reset_compression_context`: it
//! closes the current compression frame (so a fresh decompressor can start
//! at the next byte) and reports how many bytes were emitted into the
//! underlying sink since this writer was created. The sink is the whole
//! table file being assembled in memory; the bytes present at creation
//! (the preamble) stay untouched in front and are not counted.

use vstd::prelude::*;
use crate::compression::Compressor;
use crate::compression::spec_frame_of;
use crate::compression::spec_frames_concat;
use crate::compression::lemma_frames_concat_push;
use crate::error::Error;
use crate::poswriter::PosWriter;
use crate::types::Compression;

verus! {

/// Append to a sink whose position mirrors its length. The counter
/// cannot overflow: the sink's bytes are held in memory, so their count
/// always fits a vector length.
fn sink_write(pw: &mut PosWriter<Vec<u8>>, buf: &[u8])
    requires
        old(pw).offset == old(pw).w@.len(),
    ensures
        final(pw).w@ == old(pw).w@ + buf@,
        final(pw).offset == final(pw).w@.len(),
{
    let bl = buf.len() as u64;
    if pw.current_offset() <= u64::MAX - bl {
        pw.write_all(buf);
    } else {
        // The sink already holds `offset` bytes, so after this append its
        // length would exceed what any vector can hold: unreachable.
        pw.w.extend_from_slice(buf);
        let nl = pw.w.len();
        proof {
            assert(false);
        }
        pw.offset = nl as u64;
    }
}

/// A writer that maybe compresses the input.
///
/// `write_all` feeds bytes into the current frame;
/// `reset_compression_context` flushes and closes that frame, returning
/// the number of bytes emitted since creation (the next frame's relative
/// offset); `into_inner` finishes any pending frame and hands the sink
/// back.
pub trait CompressionContextWriter: Sized {
    /// Internal consistency of the writer.
    spec fn wf(&self) -> bool;

    /// The compression algorithm of every frame.
    spec fn algo(&self) -> Compression;

    /// The bytes that were in the sink when this writer was created.
    spec fn prefix(&self) -> Seq<u8>;

    /// The plaintexts of the frames closed so far.
    spec fn closed(&self) -> Seq<Seq<u8>>;

    /// The plaintext fed into the current, still open frame.
    spec fn pending(&self) -> Seq<u8>;

    /// Feed bytes into the current frame.
    fn write_all(&mut self, buf: &[u8])
        requires
            old(self).wf(),
        ensures
            final(self).wf(),
            final(self).algo() == old(self).algo(),
            final(self).prefix() == old(self).prefix(),
            final(self).closed() == old(self).closed(),
            final(self).pending() == old(self).pending() + buf@,
    ;

    /// Close the current frame, so a fresh decompressor can start at the
    /// next byte, and report the number of bytes written to the sink
    /// since this writer was created.
    fn reset_compression_context(&mut self) -> (r: Result<usize, Error>)
        requires
            old(self).wf(),
        ensures
            final(self).wf(),
            final(self).algo() == old(self).algo(),
            final(self).prefix() == old(self).prefix(),
            final(self).closed() == old(self).closed().push(old(self).pending()),
            final(self).pending() == Seq::<u8>::empty(),
            r matches Ok(n) && n == spec_frames_concat(
                old(self).algo(),
                final(self).closed(),
            ).len(),
            (r matches Ok(n) ==> n + old(self).prefix().len() <= usize::MAX),
            old(self).pending().len() > 0 ==> spec_frame_of(
                old(self).algo(),
                old(self).pending(),
            ).len() > 0,
    ;

    /// Hand the sink back, finishing any pending frame first: the prefix
    /// followed by every closed frame and the frame of the pending bytes.
    fn into_inner(self) -> (r: Result<Vec<u8>, Error>)
        requires
            self.wf(),
        ensures
            r matches Ok(v) && v@ == self.prefix() + spec_frames_concat(
                self.algo(),
                self.closed().push(self.pending()),
            ),
    ;
}

/// The identity writer: bytes go to the sink as they are, and a frame
/// boundary is just a remembered offset.
pub struct UncompressedWriter {
    writer: PosWriter<Vec<u8>>,
    prefix_len: usize,
    closed_frames: Ghost<Seq<Seq<u8>>>,
    pending_bytes: Ghost<Seq<u8>>,
}

impl UncompressedWriter {
    pub fn new(writer: Vec<u8>) -> (r: Self)
        ensures
            r.wf(),
            r.algo() == Compression::Plain,
            r.prefix() == writer@,
            r.closed() == Seq::<Seq<u8>>::empty(),
            r.pending() == Seq::<u8>::empty(),
    {
        let prefix_len = writer.len();
        let offset = prefix_len as u64;
        let r = UncompressedWriter {
            writer: PosWriter::new(writer, offset),
            prefix_len,
            closed_frames: Ghost(Seq::empty()),
            pending_bytes: Ghost(Seq::empty()),
        };
        proof {
            assert(r.writer.w@ =~= r.writer.w@.subrange(0, r.prefix_len as int)
                + spec_frames_concat(Compression::Plain, Seq::empty()) + Seq::<u8>::empty());
        }
        r
    }
}

impl CompressionContextWriter for UncompressedWriter {
    closed spec fn wf(&self) -> bool {
        &&& self.prefix_len <= self.writer.w@.len()
        &&& self.writer.offset == self.writer.w@.len()
        &&& self.writer.w@ == self.prefix() + spec_frames_concat(Compression::Plain, self.closed())
            + self.pending()
    }

    open spec fn algo(&self) -> Compression {
        Compression::Plain
    }

    closed spec fn prefix(&self) -> Seq<u8> {
        self.writer.w@.subrange(0, self.prefix_len as int)
    }

    closed spec fn closed(&self) -> Seq<Seq<u8>> {
        self.closed_frames@
    }

    closed spec fn pending(&self) -> Seq<u8> {
        self.pending_bytes@
    }

    fn write_all(&mut self, buf: &[u8]) {
        sink_write(&mut self.writer, buf);
        proof {
            self.pending_bytes@ = self.pending_bytes@ + buf@;
            assert(self.prefix() =~= old(self).prefix());
            assert(self.writer.w@ =~= self.prefix() + spec_frames_concat(
                Compression::Plain,
                self.closed(),
            ) + self.pending());
        }
    }

    fn reset_compression_context(&mut self) -> (r: Result<usize, Error>) {
        proof {
            lemma_frames_concat_push(Compression::Plain, self.closed_frames@, self.pending_bytes@);
            self.closed_frames@ = self.closed_frames@.push(self.pending_bytes@);
            self.pending_bytes@ = Seq::empty();
            assert(self.prefix() == old(self).prefix());
            assert(spec_frames_concat(Compression::Plain, self.closed()) == spec_frames_concat(
                Compression::Plain,
                old(self).closed(),
            ) + old(self).pending());
            assert(self.writer.w@ =~= self.prefix() + spec_frames_concat(
                Compression::Plain,
                self.closed(),
            ) + self.pending());
        }
        Ok(self.writer.w.len() - self.prefix_len)
    }

    fn into_inner(self) -> (r: Result<Vec<u8>, Error>) {
        proof {
            lemma_frames_concat_push(Compression::Plain, self.closed_frames@, self.pending_bytes@);
            assert(self.writer.w@ =~= self.prefix() + spec_frames_concat(
                Compression::Plain,
                self.closed().push(self.pending()),
            ));
        }
        Ok(self.writer.into_inner())
    }
}

/// A compressing writer: plaintext is buffered per chunk, and closing the
/// frame compresses the buffer into the sink in one piece.
pub struct CompressionContextWriterImpl<C> {
    writer: PosWriter<Vec<u8>>,
    buf: Vec<u8>,
    compressor: C,
    prefix_len: usize,
    closed_frames: Ghost<Seq<Seq<u8>>>,
}

impl<C: Compressor> CompressionContextWriterImpl<C> {
    pub fn new(writer: Vec<u8>, compressor: C) -> (r: Self)
        ensures
            r.wf(),
            r.algo() == compressor.algo(),
            r.prefix() == writer@,
            r.closed() == Seq::<Seq<u8>>::empty(),
            r.pending() == Seq::<u8>::empty(),
    {
        let prefix_len = writer.len();
        let offset = prefix_len as u64;
        let r = CompressionContextWriterImpl {
            writer: PosWriter::new(writer, offset),
            buf: Vec::new(),
            compressor,
            prefix_len,
            closed_frames: Ghost(Seq::empty()),
        };
        proof {
            assert(r.writer.w@ =~= r.writer.w@.subrange(0, r.prefix_len as int)
                + spec_frames_concat(r.compressor.algo(), Seq::empty()));
        }
        r
    }
}

impl<C: Compressor> CompressionContextWriter for CompressionContextWriterImpl<C> {
    closed spec fn wf(&self) -> bool {
        &&& self.prefix_len <= self.writer.w@.len()
        &&& self.writer.offset == self.writer.w@.len()
        &&& self.writer.w@ == self.prefix() + spec_frames_concat(
            self.compressor.algo(),
            self.closed(),
        )
    }

    closed spec fn algo(&self) -> Compression {
        self.compressor.algo()
    }

    closed spec fn prefix(&self) -> Seq<u8> {
        self.writer.w@.subrange(0, self.prefix_len as int)
    }

    closed spec fn closed(&self) -> Seq<Seq<u8>> {
        self.closed_frames@
    }

    closed spec fn pending(&self) -> Seq<u8> {
        self.buf@
    }

    fn write_all(&mut self, buf: &[u8]) {
        self.buf.extend_from_slice(buf);
        proof {
            assert(self.prefix() =~= old(self).prefix());
        }
    }

    fn reset_compression_context(&mut self) -> (r: Result<usize, Error>) {
        let frame = self.compressor.compress_frame(self.buf.as_slice());
        sink_write(&mut self.writer, frame.as_slice());
        self.buf.clear();
        proof {
            lemma_frames_concat_push(self.compressor.algo(), self.closed_frames@, old(self).buf@);
            self.closed_frames@ = self.closed_frames@.push(old(self).buf@);
            assert(self.prefix() =~= old(self).prefix());
            assert(self.writer.w@ =~= self.prefix() + spec_frames_concat(
                self.compressor.algo(),
                self.closed(),
            ));
        }
        Ok(self.writer.w.len() - self.prefix_len)
    }

    fn into_inner(self) -> (r: Result<Vec<u8>, Error>) {
        let mut this = self;
        let frame = this.compressor.compress_frame(this.buf.as_slice());
        sink_write(&mut this.writer, frame.as_slice());
        proof {
            lemma_frames_concat_push(
                this.compressor.algo(),
                this.closed_frames@,
                self.buf@,
            );
            assert(this.prefix() =~= self.prefix());
            assert(this.writer.w@ =~= self.prefix() + spec_frames_concat(
                self.compressor.algo(),
                self.closed().push(self.pending()),
            ));
        }
        Ok(this.writer.into_inner())
    }
}

} // verus!
