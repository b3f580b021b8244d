//! The stored form of a chunk: a format byte followed by the data.
use crate::chunks::codec;
use crate::chunks::codec::CompressionFormat;
use crate::chunks::hash;
use crate::chunks::hash::{hex, same_hash, ChunkHash, HashAlgorithm};
use crate::error;
use crate::error::{invalid, Error, ErrorKind};
use crate::text;
use crate::varint;
use crate::varint::StreamEnd;
use vstd::prelude::*;
use vstd::slice::slice_subrange;

verus! {

/// Largest chunk that splitting a file can produce, which bounds a chunk read's memory: four
/// times the largest average.
pub const MAX_CHUNK_SIZE: usize = 16_777_216;

/// Read limit for stored chunks; older versions allowed any configured chunk size.
pub const MAX_STORED_CHUNK_SIZE: usize = 0x4000_0000;

/// Bytes in front of the data.
pub const CHUNK_HEADER_LEN: usize = 1;

/// The most that is ever read of a stored chunk: one byte more than may be there.
pub const STORED_CHUNK_READ_LIMIT: u64 = 0x4000_0002;

/// The error for a chunk that is not what its name says.
pub open spec fn corrupted_model(hash: ChunkHash) -> error::ErrorModel {
    error::invalid_model("chunk "@ + hash::hex_text(hash@) + " is corrupted"@)
}

/// The error for a chunk that a decoder gave up on.
pub open spec fn broken_model(hash: ChunkHash, reason: Seq<char>) -> error::ErrorModel {
    error::invalid_model("chunk "@ + hash::hex_text(hash@) + " is corrupted: "@ + reason)
}

/// The compression that a format byte stands for.
pub open spec fn format_of(code: u8) -> Option<CompressionFormat> {
    if code == 0 {
        Some(CompressionFormat::Raw)
    } else if code == 2 {
        Some(CompressionFormat::Deflate)
    } else if code == 3 {
        Some(CompressionFormat::Brotli)
    } else if code == 4 {
        Some(CompressionFormat::Zstd)
    } else {
        None
    }
}

/// The stored form of `data`: in `format`, unless that is longer than the data itself.
pub open spec fn stored_form(data: Seq<u8>, format: CompressionFormat, compressed: Seq<u8>) -> Seq<
    u8,
> {
    if 1 + compressed.len() > data.len() {
        seq![codec::format_code(CompressionFormat::Raw)] + data
    } else {
        seq![codec::format_code(format)] + compressed
    }
}

/// What compressing gives: the bytes or the error.
pub open spec fn compressed_model(data: Seq<u8>, format: CompressionFormat) -> Result<
    Seq<u8>,
    error::ErrorModel,
> {
    match format {
        CompressionFormat::Raw => Ok(data),
        CompressionFormat::Deflate => match codec::deflated(data) {
            Ok(compressed) => Ok(compressed),
            Err(reason) => Err(error::error_model(ErrorKind::InvalidInput, reason)),
        },
        CompressionFormat::Brotli => Err(codec::unsupported_model()),
        CompressionFormat::Zstd => match codec::zstd_compressed(data, codec::ZSTD_LEVEL as int) {
            Ok(compressed) => Ok(compressed),
            Err(reason) => Err(error::error_model(ErrorKind::Other, reason)),
        },
    }
}

/// The stored form of a chunk, or why it cannot be made.
pub open spec fn encoded_chunk(data: Seq<u8>, format: CompressionFormat) -> Result<
    Seq<u8>,
    error::ErrorModel,
> {
    match compressed_model(data, format) {
        Ok(compressed) => Ok(stored_form(data, format, compressed)),
        Err(err) => Err(err),
    }
}

/// What a decoder makes of the bytes behind the format byte, or what it says. Only a decoder that
/// this build has is asked.
pub open spec fn decompressed(format: CompressionFormat, body: Seq<u8>) -> Result<
    Seq<u8>,
    Seq<char>,
> {
    match format {
        CompressionFormat::Raw => Ok(body),
        CompressionFormat::Zstd => match codec::zstd_recorded_size(body) {
            Some(size) if size <= MAX_CHUNK_SIZE => codec::zstd_decompressed(body, size as int),
            _ => codec::zstd_streamed(body, MAX_STORED_CHUNK_SIZE + 1),
        },
        _ => {
            let (data, end) = codec::inflated(body);
            if data.len() > MAX_STORED_CHUNK_SIZE {
                Ok(data.take(MAX_STORED_CHUNK_SIZE + 1))
            } else if end == StreamEnd::Complete {
                Ok(data)
            } else {
                Err(varint::short_read_model(end).message)
            }
        },
    }
}

/// What is made of a decoder's answer: an error and too much data are both damage.
pub open spec fn settled_chunk(hash: ChunkHash, answer: Result<Seq<u8>, Seq<char>>) -> Result<
    Seq<u8>,
    error::ErrorModel,
> {
    match answer {
        Err(reason) => Err(broken_model(hash, reason)),
        Ok(data) => if data.len() > MAX_STORED_CHUNK_SIZE {
            Err(corrupted_model(hash))
        } else {
            Ok(data)
        },
    }
}

/// What the stored form of a chunk holds, before its hash is looked at.
pub open spec fn decoded_chunk(hash: ChunkHash, content: Seq<u8>) -> Result<
    Seq<u8>,
    error::ErrorModel,
> {
    if content.len() == 0 {
        Err(corrupted_model(hash))
    } else {
        match format_of(content[0]) {
            None => Err(error::invalid_model("invalid compression format"@)),
            Some(CompressionFormat::Brotli) => Err(codec::unsupported_model()),
            Some(format) => settled_chunk(hash, decompressed(format, content.skip(1))),
        }
    }
}

/// What reading a chunk gives: its data, if that is what `hash` names.
pub open spec fn verified_chunk(
    algorithm: HashAlgorithm,
    hash: ChunkHash,
    content: Seq<u8>,
) -> Result<Seq<u8>, error::ErrorModel> {
    match decoded_chunk(hash, content) {
        Ok(data) => if hash::digest(algorithm, data) == hash {
            Ok(data)
        } else {
            Err(corrupted_model(hash))
        },
        Err(err) => Err(err),
    }
}

/// Bytes, or an error, by value.
pub open spec fn bytes_model(result: Result<Vec<u8>, Error>) -> Result<Seq<u8>, error::ErrorModel> {
    match result {
        Ok(data) => Ok(data@),
        Err(err) => Err(err@),
    }
}

/// Each format is found under its own byte.
proof fn format_of_code(format: CompressionFormat)
    ensures
        format_of(codec::format_code(format)) == Some(format),
{
}

fn corrupted(hash: &ChunkHash) -> (error: Error)
    ensures
        error@ == corrupted_model(*hash),
{
    let name = hex(hash);
    invalid(text::join3("chunk ", name.as_str(), " is corrupted"))
}

fn broken(hash: &ChunkHash, reason: &str) -> (error: Error)
    ensures
        error@ == broken_model(*hash, reason@),
{
    let name = hex(hash);
    invalid(text::join4("chunk ", name.as_str(), " is corrupted: ", reason))
}

/// Puts the format byte in front of compressed data. Chunks that don't shrink are stored raw.
pub fn frame_chunk(data: &[u8], format: CompressionFormat, compressed: Vec<u8>) -> (content: Vec<
    u8,
>)
    ensures
        content@ == stored_form(data@, format, compressed@),
        compressed@.len() >= data@.len() ==> content@ == seq![0u8] + data@,
        compressed@.len() < data@.len() ==> content@ == seq![
            match format {
                CompressionFormat::Raw => 0u8,
                CompressionFormat::Deflate => 2u8,
                CompressionFormat::Brotli => 3u8,
                CompressionFormat::Zstd => 4u8,
            },
        ] + compressed@,
{
    let mut content: Vec<u8> = Vec::new();
    if compressed.len() >= data.len() {
        content.push(CompressionFormat::Raw.encode());
        content.extend_from_slice(data);
    } else {
        content.push(format.encode());
        content.extend_from_slice(compressed.as_slice());
    }
    assert(content@ =~= stored_form(data@, format, compressed@));
    content
}

fn compress(data: &[u8], format: CompressionFormat) -> (compressed: Result<Vec<u8>, Error>)
    ensures
        bytes_model(compressed) == compressed_model(data@, format),
        format == CompressionFormat::Deflate && compressed is Ok ==> codec::inflated(
            compressed->Ok_0@,
        ) == (data@, StreamEnd::Complete),
        format == CompressionFormat::Zstd && compressed is Ok ==> {
            &&& codec::zstd_recorded_size(compressed->Ok_0@) == Some(data@.len() as u64)
            &&& codec::gives(
                codec::zstd_decompressed(compressed->Ok_0@, data@.len() as int),
                data@,
            )
            &&& codec::gives(
                codec::zstd_streamed(compressed->Ok_0@, MAX_STORED_CHUNK_SIZE + 1),
                data@,
            ) || data@.len() > MAX_STORED_CHUNK_SIZE + 1
        },
{
    match format {
        CompressionFormat::Raw => Ok(vstd::slice::slice_to_vec(data)),
        CompressionFormat::Deflate => match codec::deflate(data) {
            Ok(compressed) => Ok(compressed),
            Err(reason) => Err(Error::new(ErrorKind::InvalidInput, reason)),
        },
        CompressionFormat::Brotli => Err(
            Error::new(ErrorKind::Unsupported, "this build was made without brotli".to_owned()),
        ),
        CompressionFormat::Zstd => match codec::zstd_compress(data, codec::ZSTD_LEVEL) {
            Ok(compressed) => Ok(compressed),
            Err(reason) => Err(Error::new(ErrorKind::Other, reason)),
        },
    }
}

/// The stored form of a chunk. Whatever the format, it reads back as `data`, also under the check
/// of the hash that names it.
pub fn encode_chunk(data: &[u8], compression: CompressionFormat) -> (content: Result<
    Vec<u8>,
    Error,
>)
    ensures
        bytes_model(content) == encoded_chunk(data@, compression),
        content is Ok && data@.len() <= MAX_STORED_CHUNK_SIZE ==> forall|hash: ChunkHash| #[trigger]
            decoded_chunk(hash, content->Ok_0@) == Ok::<_, error::ErrorModel>(data@),
        content is Ok && data@.len() <= MAX_STORED_CHUNK_SIZE ==> forall|algorithm: HashAlgorithm|
            #[trigger]
            verified_chunk(algorithm, hash::digest(algorithm, data@), content->Ok_0@) == Ok::<
                _,
                error::ErrorModel,
            >(data@),
{
    match compress(data, compression) {
        Err(err) => Err(err),
        Ok(compressed) => {
            let ghost squeezed = compressed@;
            let content = frame_chunk(data, compression, compressed);
            proof {
                if data@.len() <= MAX_STORED_CHUNK_SIZE {
                    assert forall|hash: ChunkHash| #[trigger]
                        decoded_chunk(hash, content@) == Ok::<_, error::ErrorModel>(data@) by {
                        if 1 + squeezed.len() > data@.len() {
                            format_of_code(CompressionFormat::Raw);
                            assert(content@.skip(1) =~= data@);
                        } else {
                            format_of_code(compression);
                            assert(content@.skip(1) =~= squeezed);
                        }
                    }
                }
            }
            Ok(content)
        },
    }
}

/// Judges what a decoder answered for a chunk.
pub fn settle_chunk(hash: &ChunkHash, answer: Result<Vec<u8>, String>) -> (data: Result<
    Vec<u8>,
    Error,
>)
    ensures
        bytes_model(data) == settled_chunk(*hash, codec::outcome(answer)),
{
    match answer {
        Err(reason) => Err(broken(hash, reason.as_str())),
        Ok(data) => if data.len() > MAX_STORED_CHUNK_SIZE {
            Err(corrupted(hash))
        } else {
            Ok(data)
        },
    }
}

/// The size to decompress a Zstd chunk into at once. Trusts the frame's size only up to what this
/// version writes; anything else streams with a bound.
pub fn trusted_size(recorded: Option<u64>) -> (size: Option<usize>)
    ensures
        match recorded {
            Some(recorded) if recorded <= MAX_CHUNK_SIZE => size is Some && size->0 == recorded,
            _ => size is None,
        },
{
    match recorded {
        Some(size) => if size <= MAX_CHUNK_SIZE as u64 {
            Some(size as usize)
        } else {
            None
        },
        None => None,
    }
}

fn decompress(format: CompressionFormat, body: &[u8]) -> (data: Result<Vec<u8>, String>)
    requires
        format != CompressionFormat::Brotli,
    ensures
        codec::outcome(data) == decompressed(format, body@),
{
    match format {
        CompressionFormat::Raw => Ok(vstd::slice::slice_to_vec(body)),
        CompressionFormat::Zstd => match trusted_size(codec::zstd_frame_size(body)) {
            Some(size) => codec::zstd_decompress(body, size),
            None => codec::zstd_stream(body, MAX_STORED_CHUNK_SIZE as u64 + 1),
        },
        _ => {
            let (data, end) = codec::inflate(body, MAX_STORED_CHUNK_SIZE + 1);
            if end == StreamEnd::Complete {
                Ok(data)
            } else {
                Err(varint::short_read(end).message)
            }
        },
    }
}

/// Decompresses the stored form of a chunk, without a look at its hash.
pub fn read_chunk_unverified(hash: &ChunkHash, content: &[u8]) -> (data: Result<Vec<u8>, Error>)
    ensures
        bytes_model(data) == decoded_chunk(*hash, content@),
{
    if content.len() == 0 {
        return Err(corrupted(hash));
    }
    proof {
        format_of_code(CompressionFormat::Raw);
        format_of_code(CompressionFormat::Deflate);
        format_of_code(CompressionFormat::Brotli);
        format_of_code(CompressionFormat::Zstd);
    }
    let format = match CompressionFormat::try_decode(content[0]) {
        Ok(format) => format,
        Err(err) => return Err(err),
    };
    if format == CompressionFormat::Brotli {
        return Err(
            Error::new(ErrorKind::Unsupported, "this build was made without brotli".to_owned()),
        );
    }
    let body = slice_subrange(content, CHUNK_HEADER_LEN, content.len());
    assert(body@ =~= content@.skip(1));
    settle_chunk(hash, decompress(format, body))
}

/// Decompresses the stored form of a chunk, failing if it does not hash to `hash`.
pub fn read_chunk(algorithm: HashAlgorithm, hash: &ChunkHash, content: &[u8]) -> (data: Result<
    Vec<u8>,
    Error,
>)
    ensures
        bytes_model(data) == verified_chunk(algorithm, *hash, content@),
        data is Ok ==> hash::digest(algorithm, data->Ok_0@) == *hash,
{
    match read_chunk_unverified(hash, content) {
        Ok(data) => if same_hash(&algorithm.hash(data.as_slice()), hash) {
            Ok(data)
        } else {
            Err(corrupted(hash))
        },
        Err(err) => Err(err),
    }
}

/// A chunk is stored in the format that was asked for if that is shorter than its data, and else as
/// it is: a format byte and then the bytes, never more than one byte longer than the data.
pub proof fn stored_by_format(data: Seq<u8>)
    ensures
        encoded_chunk(data, CompressionFormat::Raw) == Ok::<_, error::ErrorModel>(
            seq![0u8] + data,
        ),
        encoded_chunk(data, CompressionFormat::Brotli) is Err && encoded_chunk(
            data,
            CompressionFormat::Brotli,
        )->Err_0.kind is Unsupported,
        match codec::deflated(data) {
            Ok(bytes) => encoded_chunk(data, CompressionFormat::Deflate) == Ok::<
                _,
                error::ErrorModel,
            >(
                if bytes.len() < data.len() {
                    seq![2u8] + bytes
                } else {
                    seq![0u8] + data
                },
            ),
            Err(_) => encoded_chunk(data, CompressionFormat::Deflate) is Err,
        },
        match codec::zstd_compressed(data, 3) {
            Ok(bytes) => encoded_chunk(data, CompressionFormat::Zstd) == Ok::<
                _,
                error::ErrorModel,
            >(
                if bytes.len() < data.len() {
                    seq![4u8] + bytes
                } else {
                    seq![0u8] + data
                },
            ),
            Err(_) => encoded_chunk(data, CompressionFormat::Zstd) is Err,
        },
{
}

/// What the stored form of a chunk holds, by its format byte: the bytes as they are, what they
/// inflate to, or what they decompress to, and never more than a gigabyte. Anything else is damage,
/// but for a format that this build does not read.
pub proof fn read_by_format(hash: ChunkHash, content: Seq<u8>)
    ensures
        ({
            let read = decoded_chunk(hash, content);
            let body = content.skip(1);
            &&& content.len() == 0 ==> read is Err && read->Err_0.kind is InvalidData
            &&& content.len() > 0 ==> match content[0] {
                0 => if body.len() <= 0x4000_0000 {
                    read == Ok::<_, error::ErrorModel>(body)
                } else {
                    read is Err && read->Err_0.kind is InvalidData
                },
                2 => {
                    let (data, end) = codec::inflated(body);
                    if data.len() <= 0x4000_0000 && end is Complete {
                        read == Ok::<_, error::ErrorModel>(data)
                    } else {
                        read is Err && read->Err_0.kind is InvalidData
                    }
                },
                3 => read is Err && read->Err_0.kind is Unsupported,
                4 => {
                    let recorded = codec::zstd_recorded_size(body);
                    let answer = if recorded is Some && recorded->0 <= 0x100_0000 {
                        codec::zstd_decompressed(body, recorded->0 as int)
                    } else {
                        codec::zstd_streamed(body, 0x4000_0001)
                    };
                    if answer is Ok && answer->Ok_0.len() <= 0x4000_0000 {
                        read == Ok::<_, error::ErrorModel>(answer->Ok_0)
                    } else {
                        read is Err && read->Err_0.kind is InvalidData
                    }
                },
                _ => read is Err && read->Err_0.kind is InvalidData,
            }
        }),
{
}

/// Reading a chunk gives what its stored form holds, exactly if that hashes to its name; else it is
/// damage.
pub proof fn only_the_named_data_is_read(
    algorithm: HashAlgorithm,
    hash: ChunkHash,
    content: Seq<u8>,
)
    ensures
        match decoded_chunk(hash, content) {
            Err(err) => verified_chunk(algorithm, hash, content) == Err::<Seq<u8>, _>(err),
            Ok(data) => if hash == match algorithm {
                HashAlgorithm::Blake2b256 => hash::blake2b_256(data),
                HashAlgorithm::Blake3 => hash::blake3_256(data),
            } {
                verified_chunk(algorithm, hash, content) == Ok::<_, error::ErrorModel>(data)
            } else {
                &&& verified_chunk(algorithm, hash, content) is Err
                &&& verified_chunk(algorithm, hash, content)->Err_0.kind is InvalidData
            },
        },
{
}

/// Bytes, or an error, by value: all of them, and the error as it is.
pub proof fn bytes_by_value(data: Vec<u8>, err: Error)
    ensures
        bytes_model(Ok(data)) == Ok::<_, error::ErrorModel>(data@),
        bytes_model(Err(err)) == Err::<Seq<u8>, _>(err@),
{
}

/// One byte more is read of a stored chunk than the largest one has: its format byte and its data.
pub proof fn oversized_chunks_are_noticed()
    ensures
        STORED_CHUNK_READ_LIMIT == MAX_STORED_CHUNK_SIZE + CHUNK_HEADER_LEN + 1,
        MAX_STORED_CHUNK_SIZE == 0x4000_0000,
        MAX_CHUNK_SIZE == 0x100_0000,
{
}

/// What is said of a chunk that is not what it should be names the chunk.
pub proof fn corrupted_chunks_are_named(hash: ChunkHash, reason: Seq<char>)
    ensures
        corrupted_model(hash).kind is InvalidData,
        corrupted_model(hash).message == "chunk "@ + hash::hex_text(hash@) + " is corrupted"@,
        broken_model(hash, reason).kind is InvalidData,
        broken_model(hash, reason).message == "chunk "@ + hash::hex_text(hash@)
            + " is corrupted: "@ + reason,
        codec::unsupported_model().kind is Unsupported,
        codec::unsupported_model().message == "this build was made without brotli"@,
{
}

} // verus!
