//! The compressions that chunks and old indexes are stored in.
use crate::error;
use crate::error::{invalid, Error, ErrorKind};
use crate::varint::StreamEnd;
use flate2::read::DeflateDecoder;
use std::io::{Read, Write};
use vstd::prelude::*;

verus! {

/// How the bytes of a chunk are compressed.
#[derive(Debug, Clone, Copy, PartialEq, Eq, Structural)]
pub enum CompressionFormat {
    /// Not at all.
    Raw,
    Deflate,
    /// Known by its code. This build neither writes nor reads it.
    Brotli,
    Zstd,
}

/// The level that Zstd compresses at.
pub const ZSTD_LEVEL: i32 = 3;

/// The byte that stands for a compression.
pub open spec fn format_code(format: CompressionFormat) -> u8 {
    match format {
        CompressionFormat::Raw => 0,
        CompressionFormat::Deflate => 2,
        CompressionFormat::Brotli => 3,
        CompressionFormat::Zstd => 4,
    }
}

/// The error for a compression that this build was made without.
pub open spec fn unsupported_model() -> error::ErrorModel {
    error::error_model(ErrorKind::Unsupported, "this build was made without brotli"@)
}

impl CompressionFormat {
    pub fn encode(&self) -> (code: u8)
        ensures
            code == format_code(*self),
            *self is Raw ==> code == 0,
            *self is Deflate ==> code == 2,
            *self is Brotli ==> code == 3,
            *self is Zstd ==> code == 4,
    {
        match self {
            CompressionFormat::Raw => 0,
            CompressionFormat::Deflate => 2,
            CompressionFormat::Brotli => 3,
            CompressionFormat::Zstd => 4,
        }
    }

    pub fn try_decode(value: u8) -> (decoded: Result<Self, Error>)
        ensures
            match decoded {
                Ok(format) => value == format_code(format),
                Err(err) => (forall|format: CompressionFormat| value != #[trigger] format_code(format))
                    && err@ == error::invalid_model("invalid compression format"@),
            },
            decoded is Ok <==> value == 0 || value == 2 || value == 3 || value == 4,
            decoded is Ok ==> (decoded->Ok_0 is Raw <==> value == 0),
            decoded is Ok ==> (decoded->Ok_0 is Deflate <==> value == 2),
            decoded is Ok ==> (decoded->Ok_0 is Brotli <==> value == 3),
            decoded is Ok ==> (decoded->Ok_0 is Zstd <==> value == 4),
    {
        match value {
            0 => Ok(CompressionFormat::Raw),
            2 => Ok(CompressionFormat::Deflate),
            3 => Ok(CompressionFormat::Brotli),
            4 => Ok(CompressionFormat::Zstd),
            _ => Err(invalid("invalid compression format".to_owned())),
        }
    }
}

/// Bytes, or the text of an error, by value.
pub open spec fn outcome(result: Result<Vec<u8>, String>) -> Result<Seq<u8>, Seq<char>> {
    match result {
        Ok(data) => Ok(data@),
        Err(message) => Err(message@),
    }
}

/// Whether an outcome is these bytes.
pub open spec fn gives(outcome: Result<Seq<u8>, Seq<char>>, data: Seq<u8>) -> bool {
    outcome is Ok && outcome->Ok_0 == data
}

/// A Deflate stream of `data`, or what the encoder said.
pub uninterp spec fn deflated(data: Seq<u8>) -> Result<Seq<u8>, Seq<char>>;

/// What a Deflate stream holds: the bytes that come out of it, read one by one, and how it ends.
pub uninterp spec fn inflated(stream: Seq<u8>) -> (Seq<u8>, StreamEnd);

/// What a decoder still yields, read one by one, and how it ends.
pub uninterp spec fn yields(decoder: DeflateDecoder<&[u8]>) -> (Seq<u8>, StreamEnd);

/// A Zstd frame of `data` at a level, or what the encoder said.
pub uninterp spec fn zstd_compressed(data: Seq<u8>, level: int) -> Result<Seq<u8>, Seq<char>>;

/// The content size that the Zstd frame at the front of `content` records.
pub uninterp spec fn zstd_recorded_size(content: Seq<u8>) -> Option<u64>;

/// What Zstd frames hold, decompressed at once into `capacity` bytes, or what the decoder said.
pub uninterp spec fn zstd_decompressed(content: Seq<u8>, capacity: int) -> Result<
    Seq<u8>,
    Seq<char>,
>;

/// The first `limit` bytes of what Zstd frames hold, decompressed as a stream, or what the decoder
/// said.
pub uninterp spec fn zstd_streamed(content: Seq<u8>, limit: int) -> Result<Seq<u8>, Seq<char>>;

/// A decoder of `flate2` that reads Deflate from memory.
#[verifier::external_type_specification]
#[verifier::external_body]
#[verifier::reject_recursive_types(R)]
pub struct ExDeflateDecoder<R>(flate2::read::DeflateDecoder<R>);

/// `flate2::write::DeflateEncoder` at the default level: what comes out depends on nothing but
/// `data`, and a stream that it finishes inflates to `data` and ends there.
#[verifier::external_body]
pub(crate) fn deflate(data: &[u8]) -> (compressed: Result<Vec<u8>, String>)
    ensures
        outcome(compressed) == deflated(data@),
        compressed is Ok ==> inflated(compressed->Ok_0@) == (data@, StreamEnd::Complete),
{
    let mut encoder = flate2::write::DeflateEncoder::new(Vec::new(), flate2::Compression::default());
    encoder.write_all(data).map_err(|err| err.to_string())?;
    encoder.finish().map_err(|err| err.to_string())
}

/// `flate2::read::DeflateDecoder::new`: what the decoder will yield depends on nothing but the
/// stream.
#[verifier::external_body]
fn decoder<'a>(stream: &'a [u8]) -> (decoder: DeflateDecoder<&'a [u8]>)
    ensures
        yields(decoder) == inflated(stream@),
{
    DeflateDecoder::new(stream)
}

/// `flate2::read::DeflateDecoder::read` into one byte: it hands out the next byte, or says how the
/// stream ends. A stream that was cut off is reported as `UnexpectedEof`, a corrupt one as
/// something else.
#[verifier::external_body]
fn next_byte(decoder: &mut DeflateDecoder<&[u8]>) -> (read: Result<Option<u8>, StreamEnd>)
    ensures
        yields(*old(decoder)).0.len() > 0 ==> read is Ok && read->Ok_0 == Some(
            yields(*old(decoder)).0[0],
        ),
        yields(*old(decoder)).0.len() > 0 ==> yields(*final(decoder)) == (
            yields(*old(decoder)).0.drop_first(),
            yields(*old(decoder)).1,
        ),
        yields(*old(decoder)).0.len() == 0 ==> match read {
            Ok(byte) => byte is None && yields(*old(decoder)).1 == StreamEnd::Complete,
            Err(end) => end == yields(*old(decoder)).1 && end != StreamEnd::Complete,
        },
{
    let mut byte = [0u8; 1];
    match decoder.read(&mut byte) {
        Ok(0) => Ok(None),
        Ok(_) => Ok(Some(byte[0])),
        Err(err) if err.kind() == std::io::ErrorKind::UnexpectedEof => Err(StreamEnd::Incomplete),
        Err(_) => Err(StreamEnd::Corrupt),
    }
}

/// `zstd::bulk::compress`: what comes out depends on nothing but `data` and the level. A frame
/// records how much it holds and decompresses to `data`, at once into as many bytes and as a
/// stream.
#[verifier::external_body]
pub(crate) fn zstd_compress(data: &[u8], level: i32) -> (compressed: Result<Vec<u8>, String>)
    ensures
        outcome(compressed) == zstd_compressed(data@, level as int),
        compressed is Ok ==> zstd_recorded_size(compressed->Ok_0@) == Some(data@.len() as u64),
        compressed is Ok ==> gives(
            zstd_decompressed(compressed->Ok_0@, data@.len() as int),
            data@,
        ),
        compressed is Ok ==> forall|limit: int|
            limit >= data@.len() ==> gives(
                #[trigger] zstd_streamed(compressed->Ok_0@, limit),
                data@,
            ),
{
    zstd::bulk::compress(data, level).map_err(|err| err.to_string())
}

/// `zstd::zstd_safe::get_frame_content_size`: the size depends on nothing but the bytes. A size
/// that is not recorded and a header that cannot be read give none.
#[verifier::external_body]
pub(crate) fn zstd_frame_size(content: &[u8]) -> (size: Option<u64>)
    ensures
        size == zstd_recorded_size(content@),
{
    zstd::zstd_safe::get_frame_content_size(content).ok().flatten()
}

/// `zstd::bulk::decompress_to_buffer` into `capacity` bytes, which is as many as a buffer can have
/// or fewer: what comes out depends on nothing but the content and the capacity.
#[verifier::external_body]
pub(crate) fn zstd_decompress(content: &[u8], capacity: usize) -> (data: Result<Vec<u8>, String>)
    requires
        capacity <= isize::MAX,
    ensures
        outcome(data) == zstd_decompressed(content@, capacity as int),
{
    let mut data = vec![0u8; capacity];
    let written = zstd::bulk::decompress_to_buffer(content, &mut data).map_err(|err| err.to_string())?;
    data.truncate(written);
    Ok(data)
}

/// `zstd::stream::read::Decoder`, read to the end or to `limit` bytes: what comes out depends on
/// nothing but the content and the limit.
#[verifier::external_body]
pub(crate) fn zstd_stream(content: &[u8], limit: u64) -> (data: Result<Vec<u8>, String>)
    ensures
        outcome(data) == zstd_streamed(content@, limit as int),
{
    let mut data = Vec::new();
    let decoder = zstd::stream::read::Decoder::new(content).map_err(|err| err.to_string())?;
    decoder.take(limit).read_to_end(&mut data).map_err(|err| err.to_string())?;
    Ok(data)
}

/// Inflates a stream as far as it goes, but no further than `limit` bytes. Reaching the limit
/// counts as an end.
pub fn inflate(stream: &[u8], limit: usize) -> (inflation: (Vec<u8>, StreamEnd))
    ensures
        inflated(stream@).0.len() < limit ==> (inflation.0@, inflation.1) == inflated(stream@),
        inflated(stream@).0.len() >= limit ==> inflation.0@ == inflated(stream@).0.take(
            limit as int,
        ) && inflation.1 == StreamEnd::Complete,
{
    let mut decoder = decoder(stream);
    let mut data: Vec<u8> = Vec::new();
    let ghost whole = inflated(stream@);
    while data.len() < limit
        invariant
            data@.len() <= limit,
            data@.len() <= whole.0.len(),
            data@ == whole.0.take(data@.len() as int),
            yields(decoder) == (whole.0.skip(data@.len() as int), whole.1),
            whole == inflated(stream@),
        decreases limit - data@.len(),
    {
        match next_byte(&mut decoder) {
            Ok(Some(byte)) => {
                let ghost before = data@;
                data.push(byte);
                proof {
                    assert(before.len() < whole.0.len());
                    assert(data@ =~= whole.0.take(before.len() + 1int));
                    assert(whole.0.skip(before.len() as int).drop_first() =~= whole.0.skip(
                        before.len() + 1int,
                    ));
                }
            },
            Ok(None) => {
                assert(data@ =~= whole.0);
                return (data, StreamEnd::Complete);
            },
            Err(end) => {
                assert(data@ =~= whole.0);
                return (data, end);
            },
        }
    }
    (data, StreamEnd::Complete)
}

/// Inflates a stream as far as it goes.
pub fn inflate_all(stream: &[u8]) -> (inflation: (Vec<u8>, StreamEnd))
    ensures
        (inflation.0@, inflation.1) == inflated(stream@),
{
    let mut decoder = decoder(stream);
    let mut data: Vec<u8> = Vec::new();
    let ghost whole = inflated(stream@);
    loop
        invariant
            data@.len() <= whole.0.len(),
            data@ == whole.0.take(data@.len() as int),
            yields(decoder) == (whole.0.skip(data@.len() as int), whole.1),
            whole == inflated(stream@),
        decreases whole.0.len() - data@.len(),
    {
        match next_byte(&mut decoder) {
            Ok(Some(byte)) => {
                let ghost before = data@;
                data.push(byte);
                proof {
                    assert(before.len() < whole.0.len());
                    assert(data@ =~= whole.0.take(before.len() + 1int));
                    assert(whole.0.skip(before.len() as int).drop_first() =~= whole.0.skip(
                        before.len() + 1int,
                    ));
                }
            },
            Ok(None) => {
                assert(data@ =~= whole.0);
                return (data, StreamEnd::Complete);
            },
            Err(end) => {
                assert(data@ =~= whole.0);
                return (data, end);
            },
        }
    }
}

} // verus!
