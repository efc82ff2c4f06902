use vstd::prelude::*;

verus! {

/// A fatal streaming error: the session cannot continue and whatever has been
/// flushed so far is unusable.
#[derive(Clone, Copy, Debug, PartialEq, Eq, Structural)]
pub enum StreamError {
    /// Writing to the output stream (or through the compressor) failed.
    Write,
    /// Finalizing the compressor (flush and trailer) failed.
    Finish,
}

/// Declares lz4::Encoder, the streaming LZ4 frame encoder, as an opaque
/// outside type.
#[verifier::external_type_specification]
#[verifier::external_body]
#[verifier::reject_recursive_types(W)]
pub struct ExEncoder<W>(lz4::Encoder<W>);

/// The byte sequence fed into an encoder so far (the uncompressed content of
/// the stream under construction).
pub uninterp spec fn enc_fed(e: lz4::Encoder<Vec<u8>>) -> Seq<u8>;

/// The LZ4 frame (level 1, default frame options) that encodes a byte
/// sequence.  The frame is a deterministic function of the encoded bytes.
pub uninterp spec fn lz4_frame_of(b: Seq<u8>) -> Seq<u8>;

/// Relies on lz4::EncoderBuilder::build at level 1 over an in-memory buffer:
/// a fresh encoder has been fed nothing.
#[verifier::external_body]
fn enc_new() -> (r: Result<lz4::Encoder<Vec<u8>>, StreamError>)
    ensures
        r is Ok ==> enc_fed(r->Ok_0) == Seq::<u8>::empty(),
{
    match lz4::EncoderBuilder::new().level(1).build(Vec::new()) {
        Ok(e) => Ok(e),
        Err(_) => Err(StreamError::Write),
    }
}

/// Relies on std::io::Write::write_all for lz4::Encoder: on success the whole
/// slice has been fed to the encoder, after everything fed before.
#[verifier::external_body]
fn enc_write(e: &mut lz4::Encoder<Vec<u8>>, data: &[u8]) -> (r: Result<(), StreamError>)
    ensures
        r is Ok ==> enc_fed(*final(e)) == enc_fed(*old(e)) + data@,
{
    match std::io::Write::write_all(e, data) {
        Ok(()) => Ok(()),
        Err(_) => Err(StreamError::Write),
    }
}

/// Relies on lz4::Encoder::finish: it writes the frame trailer and returns the
/// backing buffer, which then holds the complete LZ4 frame of the bytes fed.
#[verifier::external_body]
fn enc_finish(e: lz4::Encoder<Vec<u8>>) -> (r: Result<Vec<u8>, StreamError>)
    ensures
        r is Ok ==> (r->Ok_0)@ == lz4_frame_of(enc_fed(e)),
{
    let (w, res) = e.finish();
    match res {
        Ok(()) => Ok(w),
        Err(_) => Err(StreamError::Finish),
    }
}

/// The output stream of a capture session: either a raw append-only byte
/// sink, or a streaming LZ4 encoder that must be finalized.
pub enum Sink {
    Raw(Vec<u8>),
    Compressed(lz4::Encoder<Vec<u8>>),
}

impl Sink {
    /// The logical content of the stream: every byte fed to it, in order,
    /// before any compression.
    pub open spec fn fed(&self) -> Seq<u8> {
        match self {
            Sink::Raw(v) => v@,
            Sink::Compressed(e) => enc_fed(*e),
        }
    }

    /// Whether the sink stores bytes raw (a raw sink's writes cannot fail).
    pub open spec fn is_raw(&self) -> bool {
        self is Raw
    }

    /// Opens a fresh sink, compressed or raw; a fresh sink has been fed
    /// nothing.  Fails only if the compressor cannot be set up.
    pub fn new(compress: bool) -> (r: Result<Sink, StreamError>)
        ensures
            r is Ok ==> (r->Ok_0).fed() == Seq::<u8>::empty(),
            r is Ok ==> (r->Ok_0).is_raw() == !compress,
            !compress ==> r is Ok,
    {
        if compress {
            match enc_new() {
                Ok(e) => Ok(Sink::Compressed(e)),
                Err(err) => Err(err),
            }
        } else {
            Ok(Sink::Raw(Vec::new()))
        }
    }

    /// Appends `data` to the stream.  A raw sink always succeeds; on failure
    /// the session is fatal and the sink must not be used further.
    pub fn write(&mut self, data: &[u8]) -> (r: Result<(), StreamError>)
        ensures
            r is Ok ==> final(self).fed() == old(self).fed() + data@,
            r is Ok ==> final(self).is_raw() == old(self).is_raw(),
            old(self).is_raw() ==> r is Ok,
    {
        match self {
            Sink::Raw(v) => {
                let mut k: usize = 0;
                while k < data.len()
                    invariant
                        k <= data.len(),
                        v@ == old(self).fed() + data@.subrange(0, k as int),
                    decreases data.len() - k,
                {
                    v.push(data[k]);
                    k = k + 1;
                    proof {
                        assert(data@.subrange(0, k as int) == data@.subrange(0, k - 1).push(
                            data@[k - 1],
                        ));
                    }
                }
                proof {
                    assert(data@.subrange(0, data@.len() as int) == data@);
                }
                Ok(())
            },
            Sink::Compressed(e) => enc_write(e, data),
        }
    }

    /// Closes the stream and returns the bytes for the destination: the fed
    /// bytes themselves for a raw sink, the complete LZ4 frame of the fed
    /// bytes for a compressed one.
    pub fn finish(self) -> (r: Result<Vec<u8>, StreamError>)
        ensures
            r is Ok ==> (r->Ok_0)@ == (if self.is_raw() {
                self.fed()
            } else {
                lz4_frame_of(self.fed())
            }),
            self.is_raw() ==> r is Ok,
    {
        match self {
            Sink::Raw(v) => Ok(v),
            Sink::Compressed(e) => enc_finish(e),
        }
    }
}

} // verus!
