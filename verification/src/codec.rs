use crate::error::IoFault;
use crate::error::PipelineError;
use libdeflater::CompressionError;
use libdeflater::CompressionLvl;
use libdeflater::CompressionLvlError;
use libdeflater::Compressor;
use libdeflater::DecompressionError;
use libdeflater::Decompressor;
use vstd::prelude::*;

verus! {

/// A compression level that the codec accepted, opaque to the verifier.
#[verifier::external_type_specification]
#[verifier::external_body]
pub struct ExCompressionLvl(CompressionLvl);

/// The codec's refusal of a compression level, opaque to the verifier.
#[verifier::external_type_specification]
#[verifier::external_body]
pub struct ExCompressionLvlError(CompressionLvlError);

/// The codec's compressor, opaque to the verifier.
#[verifier::external_type_specification]
#[verifier::external_body]
pub struct ExCompressor(Compressor);

/// The codec's refusal to compress, opaque to the verifier.
#[verifier::external_type_specification]
#[verifier::external_body]
pub struct ExCompressionError(CompressionError);

/// The codec's decompressor, opaque to the verifier.
#[verifier::external_type_specification]
#[verifier::external_body]
pub struct ExDecompressor(Decompressor);

/// The lowest compression level that the codec accepts.
pub const MIN_LEVEL: i32 = 0;

/// The highest compression level that the codec accepts.
pub const MAX_LEVEL: i32 = 12;

/// Whether the codec accepts `level`.
pub open spec fn legal_level(level: int) -> bool {
    MIN_LEVEL <= level <= MAX_LEVEL
}

/// The number that an accepted compression level stands for.
pub uninterp spec fn level_value(level: CompressionLvl) -> int;

/// The level that a compressor was made with.
pub uninterp spec fn compressor_level(c: Compressor) -> int;

/// The largest number of bytes that compressing `n` bytes at `level` as gzip
/// can give.
pub uninterp spec fn gzip_bound_value(level: int, n: nat) -> nat;

/// The gzip stream that the codec writes for `data` at `level` into a buffer
/// of `room` bytes that can hold it.
pub uninterp spec fn gzip_stream(level: int, data: Seq<u8>, room: nat) -> Seq<u8>;

/// What the codec reads out of a gzip stream, or nothing where the stream is
/// corrupt.
pub uninterp spec fn gzip_content(stream: Seq<u8>) -> Option<Seq<u8>>;

/// The stream holds content, and `room` bytes can hold it.
pub open spec fn fits(stream: Seq<u8>, room: nat) -> bool {
    gzip_content(stream) is Some && gzip_content(stream)->Some_0.len() <= room
}

/// Why the codec could not decompress.
#[derive(Debug, Clone, Copy, PartialEq, Eq, Structural)]
pub enum InflateFault {
    /// The stream is corrupt.
    BadData,
    /// The output buffer cannot hold the content.
    InsufficientSpace,
}

/// `CompressionLvl::new`: accepts exactly the levels from 0 to 12, and the
/// accepted level stands for the number given.
#[verifier::external_body]
fn level_new(level: i32) -> (made: Result<CompressionLvl, CompressionLvlError>)
    ensures
        made is Ok <==> legal_level(level as int),
        made matches Ok(l) ==> level_value(l) == level,
{
    CompressionLvl::new(level)
}

/// `Compressor::new`: a compressor for the level given.
#[verifier::external_body]
fn compressor_new(level: CompressionLvl) -> (c: Compressor)
    ensures
        compressor_level(c) == level_value(level),
{
    Compressor::new(level)
}

/// `Compressor::gzip_compress_bound`: the same bound for the same compressor
/// and the same number of bytes; the compressor keeps its level.
#[verifier::external_body]
fn gzip_bound(c: &mut Compressor, n: usize) -> (bound: usize)
    ensures
        compressor_level(*final(c)) == compressor_level(*old(c)),
        bound == gzip_bound_value(compressor_level(*old(c)), n as nat),
{
    c.gzip_compress_bound(n)
}

/// `Compressor::gzip_compress`: on success the first `n` bytes of `out` are
/// the gzip stream for `data`, a stream out of which the codec reads `data`
/// again; `out` keeps its length and the compressor its level. Room of at
/// least the compressor's bound for the length of `data` is enough: the
/// call then succeeds.
#[verifier::external_body]
fn gzip_compress(c: &mut Compressor, data: &[u8], out: &mut Vec<u8>) -> (written: Result<
    usize,
    CompressionError,
>)
    ensures
        compressor_level(*final(c)) == compressor_level(*old(c)),
        final(out)@.len() == old(out)@.len(),
        written matches Ok(n) ==> n <= final(out)@.len() && final(out)@.take(n as int)
            == gzip_stream(compressor_level(*old(c)), data@, old(out)@.len()) && gzip_content(
            final(out)@.take(n as int),
        ) == Some(data@),
        old(out)@.len() >= gzip_bound_value(compressor_level(*old(c)), data@.len())
            ==> written is Ok,
{
    c.gzip_compress(data, out.as_mut_slice())
}

/// `Decompressor::new`: a decompressor.
#[verifier::external_body]
fn decompressor_new() -> Decompressor {
    Decompressor::new()
}

/// `Decompressor::gzip_decompress`: on success the first `n` bytes of `out`
/// are what the stream holds; corrupt data is reported as such; `out` keeps
/// its length. Where `out` can hold what the stream holds, the call
/// succeeds.
#[verifier::external_body]
fn gzip_decompress(d: &mut Decompressor, stream: &[u8], out: &mut Vec<u8>) -> (read: Result<
    usize,
    InflateFault,
>)
    ensures
        final(out)@.len() == old(out)@.len(),
        read matches Ok(n) ==> n <= final(out)@.len() && gzip_content(stream@) == Some(
            final(out)@.take(n as int),
        ),
        read matches Err(InflateFault::BadData) ==> gzip_content(stream@) is None,
        fits(stream@, old(out)@.len()) ==> read is Ok,
{
    match d.gzip_decompress(stream, out.as_mut_slice()) {
        Ok(n) => Ok(n),
        Err(DecompressionError::BadData) => Err(InflateFault::BadData),
        Err(DecompressionError::InsufficientSpace) => Err(InflateFault::InsufficientSpace),
    }
}

/// Whether `level` is a compression level that the codec accepts.
pub fn is_legal_level(level: i32) -> (legal: bool)
    ensures
        legal == legal_level(level as int),
{
    level_new(level).is_ok()
}

/// Takes what the compressor returned for a buffer of `room` bytes: on
/// success the buffer cut to the bytes written, else the compression error.
pub fn finish_compress(written: Result<usize, CompressionError>, out: Vec<u8>) -> (stream: Result<
    Vec<u8>,
    PipelineError,
>)
    ensures
        match written {
            Ok(n) => stream matches Ok(s) && s@ == out@.take(if n <= out.len() {
                n as int
            } else {
                out.len() as int
            }),
            Err(_) => stream == Err::<Vec<u8>, PipelineError>(
                PipelineError::Io(IoFault::Compress),
            ),
        },
{
    match written {
        Ok(n) => {
            let mut out = out;
            let ghost whole = out@;
            out.truncate(n);
            assert(whole.subrange(0, whole.len() as int) == whole);
            Ok(out)
        },
        Err(_) => Err(PipelineError::Io(IoFault::Compress)),
    }
}

/// The gzip stream that the codec writes for `data` at `level` into a
/// buffer of the size of its own bound.
pub open spec fn compressed(level: int, data: Seq<u8>) -> Seq<u8> {
    gzip_stream(level, data, gzip_bound_value(level, data.len()))
}

/// Compresses `data` as one gzip stream at `level`. An illegal level is a
/// configuration error; at a legal level the codec's stream for `data`
/// comes back, out of which the codec reads `data` again.
pub fn compress(level: i32, data: &[u8]) -> (stream: Result<Vec<u8>, PipelineError>)
    ensures
        match stream {
            Ok(s) => legal_level(level as int) && s@ == compressed(level as int, data@)
                && gzip_content(s@) == Some(data@),
            Err(e) => !legal_level(level as int) && e == PipelineError::InvalidConfig(
                crate::error::ConfigField::CompressionLevel,
            ),
        },
{
    let accepted = match level_new(level) {
        Ok(l) => l,
        Err(_) => {
            return Err(PipelineError::InvalidConfig(crate::error::ConfigField::CompressionLevel));
        },
    };
    let mut compressor = compressor_new(accepted);
    let room = gzip_bound(&mut compressor, data.len());
    let mut out: Vec<u8> = vec![0u8; room];
    let written = gzip_compress(&mut compressor, data, &mut out);
    finish_compress(written, out)
}

/// Takes what the decompressor returned: on success the buffer cut to the
/// bytes read; corrupt data and too little room each as its own error.
pub fn finish_decompress(read: Result<usize, InflateFault>, out: Vec<u8>) -> (content: Result<
    Vec<u8>,
    PipelineError,
>)
    ensures
        match read {
            Ok(n) => content matches Ok(c) && c@ == out@.take(if n <= out.len() {
                n as int
            } else {
                out.len() as int
            }),
            Err(InflateFault::BadData) => content == Err::<Vec<u8>, PipelineError>(
                PipelineError::Io(IoFault::Corrupt),
            ),
            Err(InflateFault::InsufficientSpace) => content == Err::<Vec<u8>, PipelineError>(
                PipelineError::Io(IoFault::Room),
            ),
        },
{
    match read {
        Ok(n) => {
            let mut out = out;
            let ghost whole = out@;
            out.truncate(n);
            assert(whole.subrange(0, whole.len() as int) == whole);
            Ok(out)
        },
        Err(InflateFault::BadData) => Err(PipelineError::Io(IoFault::Corrupt)),
        Err(InflateFault::InsufficientSpace) => Err(PipelineError::Io(IoFault::Room)),
    }
}

/// What decompressing `stream` into `room` bytes may give: the content
/// where the stream holds content that fits; the room error where it holds
/// more; and where it holds nothing, the error of a corrupt stream, or the
/// room error where the codec ran out of room before it saw the fault.
pub open spec fn inflates_to(
    stream: Seq<u8>,
    room: nat,
    content: Result<Seq<u8>, PipelineError>,
) -> bool {
    match gzip_content(stream) {
        Some(c) => if c.len() <= room {
            content == Ok::<Seq<u8>, PipelineError>(c)
        } else {
            content == Err::<Seq<u8>, PipelineError>(PipelineError::Io(IoFault::Room))
        },
        None => content == Err::<Seq<u8>, PipelineError>(PipelineError::Io(IoFault::Corrupt))
            || content == Err::<Seq<u8>, PipelineError>(PipelineError::Io(IoFault::Room)),
    }
}

/// A result with the bytes of its content as a plain value.
pub open spec fn content_view(content: Result<Vec<u8>, PipelineError>) -> Result<
    Seq<u8>,
    PipelineError,
> {
    match content {
        Ok(c) => Ok(c@),
        Err(e) => Err(e),
    }
}

/// Decompresses one gzip stream into at most `room` bytes.
pub fn decompress(stream: &[u8], room: usize) -> (content: Result<Vec<u8>, PipelineError>)
    ensures
        inflates_to(stream@, room as nat, content_view(content)),
{
    let mut decompressor = decompressor_new();
    let mut out: Vec<u8> = vec![0u8; room];
    let read = gzip_decompress(&mut decompressor, stream, &mut out);
    finish_decompress(read, out)
}

/// The first byte of every gzip stream.
pub const GZIP_MAGIC_0: u8 = 31;

/// The second byte of every gzip stream.
pub const GZIP_MAGIC_1: u8 = 139;

/// `text` starts as a gzip stream does.
pub open spec fn has_gzip_magic(text: Seq<u8>) -> bool {
    text.len() >= 2 && text[0] == GZIP_MAGIC_0 && text[1] == GZIP_MAGIC_1
}

/// The number that the last four bytes of a stream write, lowest byte first:
/// the length of its content as the stream declares it.
pub open spec fn declared_length(stream: Seq<u8>) -> Option<int> {
    if stream.len() < 4 {
        None
    } else {
        let n = stream.len() as int;
        Some(
            stream[n - 4] + stream[n - 3] * 0x100 + stream[n - 2] * 0x1_0000 + stream[n - 1]
                * 0x100_0000,
        )
    }
}

/// Whether `text` starts as a gzip stream does.
pub fn is_gzip(text: &[u8]) -> (gz: bool)
    ensures
        gz == has_gzip_magic(text@),
{
    text.len() >= 2 && text[0] == GZIP_MAGIC_0 && text[1] == GZIP_MAGIC_1
}

/// The length of its content that a stream declares in its last four bytes.
pub fn declared_size(stream: &[u8]) -> (size: Option<u32>)
    ensures
        match size {
            Some(n) => declared_length(stream@) == Some(n as int),
            None => declared_length(stream@) is None,
        },
{
    let n = stream.len();
    if n < 4 {
        return None;
    }
    let b0: u32 = stream[n - 4] as u32;
    let b1: u32 = stream[n - 3] as u32;
    let b2: u32 = stream[n - 2] as u32;
    let b3: u32 = stream[n - 1] as u32;
    Some(b0 + b1 * 0x100 + b2 * 0x1_0000 + b3 * 0x100_0000)
}

/// What decompressing `stream` into the room that it declares may give; a
/// stream shorter than four bytes is corrupt.
pub open spec fn gunzips_to(stream: Seq<u8>, content: Result<Seq<u8>, PipelineError>) -> bool {
    match declared_length(stream) {
        Some(room) => inflates_to(stream, room as nat, content),
        None => content == Err::<Seq<u8>, PipelineError>(PipelineError::Io(IoFault::Corrupt)),
    }
}

/// Decompresses one gzip stream into as much room as the stream declares
/// for its content.
pub fn gunzip(stream: &[u8]) -> (content: Result<Vec<u8>, PipelineError>)
    ensures
        gunzips_to(stream@, content_view(content)),
{
    match declared_size(stream) {
        Some(room) => decompress(stream, room as usize),
        None => Err(PipelineError::Io(IoFault::Corrupt)),
    }
}

/// The codec reads content out of `stream` even without its last byte: the
/// first member ends before the stream does.
pub open spec fn has_trailing_bytes(stream: Seq<u8>) -> bool {
    stream.len() > 0 && gzip_content(stream) is Some && fits(
        stream.drop_last(),
        gzip_content(stream)->Some_0.len(),
    )
}

/// Decompresses a gzip stream that is one member and nothing more, as
/// `gunzip` does. A stream whose first member other bytes follow is refused,
/// so that nothing is passed over in silence.
pub fn gunzip_whole(stream: &[u8]) -> (content: Result<Vec<u8>, PipelineError>)
    ensures
        match content {
            Ok(c) => gunzips_to(stream@, Ok::<Seq<u8>, PipelineError>(c@)) && !has_trailing_bytes(
                stream@,
            ),
            Err(e) => if e == PipelineError::Io(IoFault::Trailing) {
                gunzips_to(stream@, Ok::<Seq<u8>, PipelineError>(gzip_content(stream@)->Some_0))
                    && has_trailing_bytes(stream@)
            } else {
                gunzips_to(stream@, Err::<Seq<u8>, PipelineError>(e))
            },
        },
{
    let content = match gunzip(stream) {
        Ok(content) => content,
        Err(e) => {
            return Err(e);
        },
    };
    let shorter = crate::bytes::copy_range(stream, 0, stream.len() - 1);
    assert(stream@.subrange(0, stream.len() - 1) == stream@.drop_last());
    match decompress(shorter.as_slice(), content.len()) {
        Ok(_) => Err(PipelineError::Io(IoFault::Trailing)),
        Err(_) => Ok(content),
    }
}

} // verus!
