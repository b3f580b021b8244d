//! The index file: its header in every format, and where its records begin.
//!
//! Format 1 is Deflate, BLAKE2b and keyed by chunk id. Format 2 is Deflate and BLAKE3. Format 3 is
//! raw with the hash algorithm in the header. Format 4 is format 3 plus a trailing BLAKE3 checksum.
use crate::chunks::codec;
use crate::chunks::hash;
use crate::chunks::hash::{ChunkHash, HashAlgorithm};
use crate::error;
use crate::error::Error;
use crate::varint;
use crate::varint::{decode, short_read, Source, StreamEnd};
use vstd::bytes::*;
use vstd::prelude::*;
use vstd::slice::{slice_subrange, slice_to_vec};

verus! {

/// Repository settings stored in the index header.
#[derive(Debug, Clone, Copy)]
pub struct IndexHeader {
    pub version: u8,
    pub chunk_size: usize,
    pub max_chunk_count: usize,
    pub hash_algorithm: HashAlgorithm,
}

/// An index file whose header has been read.
#[derive(Debug)]
pub struct OpenIndex {
    pub header: IndexHeader,
    /// The file, out of its compression.
    pub source: Source,
    /// Where the first record begins.
    pub start: usize,
    /// How many records the header promises.
    pub count: u64,
}

/// The mathematical value of an [`OpenIndex`].
#[verifier::ext_equal]
pub struct OpenModel {
    pub header: IndexHeader,
    pub data: Seq<u8>,
    pub end: StreamEnd,
    pub start: int,
    pub count: u64,
}

impl View for OpenIndex {
    type V = OpenModel;

    open spec fn view(&self) -> OpenModel {
        OpenModel {
            header: self.header,
            data: self.source.data@,
            end: self.source.end,
            start: self.start as int,
            count: self.count,
        }
    }
}

/// The length of the header in formats 3 and 4, with the magic.
pub const HEADER_LEN: usize = 25;

/// The length of the header in format 2, with the magic.
pub const HEADER_LEN_V2: usize = 24;

/// The length of the fixed part of the header in format 1.
pub const HEADER_LEN_V1: usize = 32;

/// What formats 2 to 4 start with: `DDUPIDX` and the digit of the format.
pub open spec fn magic(digit: u8) -> Seq<u8> {
    seq![0x44, 0x44, 0x55, 0x50, 0x49, 0x44, 0x58, digit]
}

pub open spec fn has_magic(data: Seq<u8>, digit: u8) -> bool {
    data.len() >= 8 && data.take(8) == magic(digit)
}

/// The little-endian number in the four bytes at `pos`.
pub open spec fn u32_at(data: Seq<u8>, pos: int) -> u32 {
    spec_u32_from_le_bytes(data.subrange(pos, pos + 4))
}

/// The little-endian number in the eight bytes at `pos`.
pub open spec fn u64_at(data: Seq<u8>, pos: int) -> u64 {
    spec_u64_from_le_bytes(data.subrange(pos, pos + 8))
}

/// The hash that 32 bytes are.
pub open spec fn hash_of(bytes: Seq<u8>) -> ChunkHash {
    choose|hash: ChunkHash| hash@ == bytes
}

/// The hash in the 32 bytes at `pos`.
pub open spec fn hash_at(data: Seq<u8>, pos: int) -> ChunkHash {
    hash_of(data.subrange(pos, pos + 32))
}

/// The algorithm that a byte stands for.
pub open spec fn algorithm_of(code: u8) -> Option<HashAlgorithm> {
    if code == 0 {
        Some(HashAlgorithm::Blake2b256)
    } else if code == 1 {
        Some(HashAlgorithm::Blake3)
    } else {
        None
    }
}

/// The header that the bytes of a format 3 or 4 index hold, and the record count.
pub open spec fn header_at(data: Seq<u8>, version: u8) -> Result<
    (IndexHeader, u64),
    error::ErrorModel,
> {
    match algorithm_of(data[16]) {
        Some(hash_algorithm) => Ok(
            (
                IndexHeader {
                    version,
                    chunk_size: u32_at(data, 8) as usize,
                    max_chunk_count: u32_at(data, 12) as usize,
                    hash_algorithm,
                },
                u64_at(data, 17),
            ),
        ),
        None => Err(error::invalid_model("invalid hash algorithm"@)),
    }
}

/// The position behind `n` numbers.
pub open spec fn behind_varints(data: Seq<u8>, end: StreamEnd, pos: int, n: nat) -> Result<
    int,
    error::ErrorModel,
>
    decreases n,
{
    if n == 0 {
        Ok(pos)
    } else {
        match varint::varint_at(data, end, pos) {
            Ok((_, next)) => behind_varints(data, end, next, (n - 1) as nat),
            Err(err) => Err(err),
        }
    }
}

/// What the header of a raw index says.
pub open spec fn opened_raw(bytes: Seq<u8>, version: u8) -> Result<OpenModel, error::ErrorModel> {
    if bytes.len() < HEADER_LEN {
        Err(varint::short_read_model(StreamEnd::Complete))
    } else {
        match header_at(bytes, version) {
            Ok((header, count)) => Ok(
                OpenModel {
                    header,
                    data: bytes,
                    end: StreamEnd::Complete,
                    start: HEADER_LEN as int,
                    count,
                },
            ),
            Err(err) => Err(err),
        }
    }
}

/// What the header of an inflated index says. Format 1 starts with the number of deleted ids, the
/// chunk size, the chunk count limit, the number of chunks and the next id, and then lists the
/// deleted ids.
pub open spec fn opened_inflated(data: Seq<u8>, end: StreamEnd) -> Result<
    OpenModel,
    error::ErrorModel,
> {
    if data.len() < 8 {
        Err(varint::short_read_model(end))
    } else if has_magic(data, 0x32) {
        if data.len() < HEADER_LEN_V2 {
            Err(varint::short_read_model(end))
        } else {
            Ok(
                OpenModel {
                    header: IndexHeader {
                        version: 2,
                        chunk_size: u32_at(data, 8) as usize,
                        max_chunk_count: u32_at(data, 12) as usize,
                        hash_algorithm: HashAlgorithm::Blake3,
                    },
                    data,
                    end,
                    start: HEADER_LEN_V2 as int,
                    count: u64_at(data, 16),
                },
            )
        }
    } else if data.len() < HEADER_LEN_V1 {
        Err(varint::short_read_model(end))
    } else {
        match behind_varints(data, end, HEADER_LEN_V1 as int, u64_at(data, 0) as nat) {
            Ok(start) => Ok(
                OpenModel {
                    header: IndexHeader {
                        version: 1,
                        chunk_size: u32_at(data, 8) as usize,
                        max_chunk_count: u32_at(data, 12) as usize,
                        hash_algorithm: HashAlgorithm::Blake2b256,
                    },
                    data,
                    end,
                    start,
                    count: u64_at(data, 16),
                },
            ),
            Err(err) => Err(err),
        }
    }
}

/// What the header of an index file says, whatever its format.
pub open spec fn opened(bytes: Seq<u8>) -> Result<OpenModel, error::ErrorModel> {
    if has_magic(bytes, 0x34) {
        opened_raw(bytes, 4)
    } else if has_magic(bytes, 0x33) {
        opened_raw(bytes, 3)
    } else {
        let (data, end) = codec::inflated(bytes);
        opened_inflated(data, end)
    }
}

/// An opened index, or an error, by value.
pub open spec fn open_model(result: Result<OpenIndex, Error>) -> Result<
    OpenModel,
    error::ErrorModel,
> {
    match result {
        Ok(index) => Ok(index@),
        Err(err) => Err(err@),
    }
}

/// A hash is the one that its bytes are.
pub proof fn hash_of_bytes(hash: ChunkHash)
    ensures
        hash_of(hash@) == hash,
{
    let found = hash_of(hash@);
    assert(found@ == hash@);
    assert(found =~= hash);
}

/// The position behind numbers lies within the data.
pub proof fn behind_varints_in_data(data: Seq<u8>, end: StreamEnd, pos: int, n: nat)
    requires
        0 <= pos <= data.len(),
    ensures
        behind_varints(data, end, pos, n) is Ok ==> pos <= behind_varints(data, end, pos, n)->Ok_0
            <= data.len(),
    decreases n,
{
    if n > 0 {
        varint::varint_at_moves_on(data, end, pos);
        if let Ok((_, next)) = varint::varint_at(data, end, pos) {
            behind_varints_in_data(data, end, next, (n - 1) as nat);
        }
    }
}

/// The first record of an index begins within its data.
pub proof fn opened_in_data(bytes: Seq<u8>)
    ensures
        opened(bytes) is Ok ==> 0 <= opened(bytes)->Ok_0.start <= opened(bytes)->Ok_0.data.len(),
{
    let (data, end) = codec::inflated(bytes);
    if data.len() >= HEADER_LEN_V1 {
        behind_varints_in_data(data, end, HEADER_LEN_V1 as int, u64_at(data, 0) as nat);
    }
}

fn starts_with_magic(data: &[u8], digit: u8) -> (found: bool)
    ensures
        found == has_magic(data@, digit),
{
    if data.len() < 8 {
        return false;
    }
    let found = data[0] == 0x44 && data[1] == 0x44 && data[2] == 0x55 && data[3] == 0x50 && data[4]
        == 0x49 && data[5] == 0x44 && data[6] == 0x58 && data[7] == digit;
    proof {
        if found {
            assert(data@.take(8) =~= magic(digit));
        } else if data@.take(8) == magic(digit) {
            assert(data@.take(8)[0] == data@[0] && data@.take(8)[1] == data@[1]);
            assert(data@.take(8)[2] == data@[2] && data@.take(8)[3] == data@[3]);
            assert(data@.take(8)[4] == data@[4] && data@.take(8)[5] == data@[5]);
            assert(data@.take(8)[6] == data@[6] && data@.take(8)[7] == data@[7]);
        }
    }
    found
}

fn read_u32(data: &[u8], pos: usize) -> (value: u32)
    requires
        pos + 4 <= data@.len(),
    ensures
        value == u32_at(data@, pos as int),
{
    assert(data@.len() == data.len());
    u32_from_le_bytes(slice_subrange(data, pos, pos + 4))
}

fn read_u64(data: &[u8], pos: usize) -> (value: u64)
    requires
        pos + 8 <= data@.len(),
    ensures
        value == u64_at(data@, pos as int),
{
    assert(data@.len() == data.len());
    u64_from_le_bytes(slice_subrange(data, pos, pos + 8))
}

/// The hash in the 32 bytes at `pos`.
pub fn read_hash(data: &[u8], pos: usize) -> (hash: ChunkHash)
    requires
        pos + 32 <= data@.len(),
    ensures
        hash == hash_at(data@, pos as int),
        hash@ == data@.subrange(pos as int, pos + 32),
{
    let mut hash: ChunkHash = [0u8; 32];
    let mut i: usize = 0;
    while i < 32
        invariant
            i <= 32,
            pos + 32 <= data@.len(),
            forall|j: int| 0 <= j < i ==> hash@[j] == data@[pos + j],
        decreases 32 - i,
    {
        assert(data@.len() == data.len());
        hash[i] = data[pos + i];
        i = i + 1;
    }
    assert(hash@ =~= data@.subrange(pos as int, pos + 32));
    proof {
        hash_of_bytes(hash);
    }
    hash
}

/// Parses the header bytes of formats 3 and 4.
fn parse_header(data: &[u8], version: u8) -> (parsed: Result<(IndexHeader, u64), Error>)
    requires
        data@.len() >= HEADER_LEN,
    ensures
        match (parsed, header_at(data@, version)) {
            (Ok(header), Ok(header_spec)) => header == header_spec,
            (Err(err), Err(err_spec)) => err@ == err_spec,
            _ => false,
        },
{
    match HashAlgorithm::try_decode(data[16]) {
        Ok(hash_algorithm) => Ok(
            (
                IndexHeader {
                    version,
                    chunk_size: read_u32(data, 8) as usize,
                    max_chunk_count: read_u32(data, 12) as usize,
                    hash_algorithm,
                },
                read_u64(data, 17),
            ),
        ),
        Err(err) => Err(err),
    }
}

fn skip_varints(data: &[u8], end: StreamEnd, start: usize, n: u64) -> (behind: Result<usize, Error>)
    requires
        start <= data@.len(),
    ensures
        match (behind, behind_varints(data@, end, start as int, n as nat)) {
            (Ok(pos), Ok(pos_spec)) => pos == pos_spec && start <= pos <= data@.len(),
            (Err(err), Err(err_spec)) => err@ == err_spec,
            _ => false,
        },
{
    let mut pos: usize = start;
    let mut left: u64 = n;
    while left > 0
        invariant
            start <= pos <= data@.len(),
            behind_varints(data@, end, start as int, n as nat) == behind_varints(
                data@,
                end,
                pos as int,
                left as nat,
            ),
        decreases left,
    {
        match decode(data, end, pos) {
            Ok((_, next)) => {
                pos = next;
            },
            Err(err) => {
                return Err(err);
            },
        }
        left = left - 1;
    }
    Ok(pos)
}

fn open_raw(bytes: &[u8], version: u8) -> (open: Result<OpenIndex, Error>)
    ensures
        open_model(open) == opened_raw(bytes@, version),
{
    if bytes.len() < HEADER_LEN {
        return Err(short_read(StreamEnd::Complete));
    }
    match parse_header(bytes, version) {
        Ok((header, count)) => Ok(
            OpenIndex {
                header,
                source: Source { data: slice_to_vec(bytes), end: StreamEnd::Complete },
                start: HEADER_LEN,
                count,
            },
        ),
        Err(err) => Err(err),
    }
}

/// Reads the header of an index that has been inflated.
pub fn open_inflated(source: Source) -> (open: Result<OpenIndex, Error>)
    ensures
        open_model(open) == opened_inflated(source.data@, source.end),
{
    let end = source.end;
    let data = source.data.as_slice();
    if data.len() < 8 {
        return Err(short_read(end));
    }
    if starts_with_magic(data, 0x32) {
        if data.len() < HEADER_LEN_V2 {
            return Err(short_read(end));
        }
        let header = IndexHeader {
            version: 2,
            chunk_size: read_u32(data, 8) as usize,
            max_chunk_count: read_u32(data, 12) as usize,
            hash_algorithm: HashAlgorithm::Blake3,
        };
        let count: u64 = read_u64(data, 16);
        return Ok(OpenIndex { header, source, start: HEADER_LEN_V2, count });
    }
    if data.len() < HEADER_LEN_V1 {
        return Err(short_read(end));
    }
    let deleted: u64 = read_u64(data, 0);
    let header = IndexHeader {
        version: 1,
        chunk_size: read_u32(data, 8) as usize,
        max_chunk_count: read_u32(data, 12) as usize,
        hash_algorithm: HashAlgorithm::Blake2b256,
    };
    let count: u64 = read_u64(data, 16);
    match skip_varints(data, end, HEADER_LEN_V1, deleted) {
        Ok(start) => Ok(OpenIndex { header, source, start, count }),
        Err(err) => Err(err),
    }
}

/// Detects the format of an index and reads its header. The record count of format 1 is only a
/// promise: its records go on to the end.
pub fn open_index(bytes: &[u8]) -> (open: Result<OpenIndex, Error>)
    ensures
        open_model(open) == opened(bytes@),
{
    if starts_with_magic(bytes, 0x34) {
        return open_raw(bytes, 4);
    }
    if starts_with_magic(bytes, 0x33) {
        return open_raw(bytes, 3);
    }
    let (data, end) = codec::inflate_all(bytes);
    open_inflated(Source { data, end })
}

/// What the header of an index says, by its format. Formats 4 and 3 start with their name and are
/// raw; anything else is inflated first, and is format 2 if it then starts with that name and
/// format 1 if not. Numbers are little-endian. Less than a whole header is cut off.
pub proof fn headers_by_format(bytes: Seq<u8>)
    ensures
        ({
            let raw = |digit: u8|
                bytes.len() >= 8 && bytes.take(8) == seq![
                    0x44u8,
                    0x44u8,
                    0x55u8,
                    0x50u8,
                    0x49u8,
                    0x44u8,
                    0x58u8,
                    digit,
                ];
            let (data, end) = codec::inflated(bytes);
            let second = data.len() >= 8 && data.take(8) == seq![
                0x44u8,
                0x44u8,
                0x55u8,
                0x50u8,
                0x49u8,
                0x44u8,
                0x58u8,
                0x32u8,
            ];
            let open = opened(bytes);
            if raw(0x34) || raw(0x33) {
                &&& bytes.len() < 25 ==> open is Err && open->Err_0.kind is UnexpectedEof
                &&& bytes.len() >= 25 && bytes[16] > 1 ==> open is Err && open->Err_0.kind
                    is InvalidData
                &&& bytes.len() >= 25 && bytes[16] <= 1 ==> {
                    &&& open is Ok
                    &&& open->Ok_0.header.version == if raw(0x34) {
                        4u8
                    } else {
                        3u8
                    }
                    &&& open->Ok_0.header.chunk_size == spec_u32_from_le_bytes(
                        bytes.subrange(8, 12),
                    )
                    &&& open->Ok_0.header.max_chunk_count == spec_u32_from_le_bytes(
                        bytes.subrange(12, 16),
                    )
                    &&& open->Ok_0.header.hash_algorithm is Blake2b256 <==> bytes[16] == 0
                    &&& open->Ok_0.data == bytes
                    &&& open->Ok_0.end is Complete
                    &&& open->Ok_0.start == 25
                    &&& open->Ok_0.count == spec_u64_from_le_bytes(bytes.subrange(17, 25))
                }
            } else if data.len() < 8 || (second && data.len() < 24) || (!second && data.len()
                < 32) {
                open is Err && open->Err_0.kind == match end {
                    StreamEnd::Corrupt => error::ErrorKind::InvalidInput,
                    _ => error::ErrorKind::UnexpectedEof,
                }
            } else if second {
                &&& open is Ok
                &&& open->Ok_0.header.version == 2
                &&& open->Ok_0.header.chunk_size == spec_u32_from_le_bytes(data.subrange(8, 12))
                &&& open->Ok_0.header.max_chunk_count == spec_u32_from_le_bytes(
                    data.subrange(12, 16),
                )
                &&& open->Ok_0.header.hash_algorithm is Blake3
                &&& open->Ok_0.data == data
                &&& open->Ok_0.end == end
                &&& open->Ok_0.start == 24
                &&& open->Ok_0.count == spec_u64_from_le_bytes(data.subrange(16, 24))
            } else {
                match behind_varints(
                    data,
                    end,
                    32,
                    spec_u64_from_le_bytes(data.subrange(0, 8)) as nat,
                ) {
                    Err(err) => open == Err::<OpenModel, _>(err),
                    Ok(start) => {
                        &&& open is Ok
                        &&& open->Ok_0.header.version == 1
                        &&& open->Ok_0.header.chunk_size == spec_u32_from_le_bytes(
                            data.subrange(8, 12),
                        )
                        &&& open->Ok_0.header.max_chunk_count == spec_u32_from_le_bytes(
                            data.subrange(12, 16),
                        )
                        &&& open->Ok_0.header.hash_algorithm is Blake2b256
                        &&& open->Ok_0.data == data
                        &&& open->Ok_0.end == end
                        &&& open->Ok_0.start == start
                        &&& open->Ok_0.count == spec_u64_from_le_bytes(data.subrange(16, 24))
                    },
                }
            }
        }),
{
}

/// Numbers are passed over one by one.
pub proof fn numbers_are_passed_over(data: Seq<u8>, end: StreamEnd, pos: int, n: nat)
    ensures
        behind_varints(data, end, pos, 0) == Ok::<_, error::ErrorModel>(pos),
        behind_varints(data, end, pos, n + 1) == match varint::varint_at(data, end, pos) {
            Ok((_, next)) => behind_varints(data, end, next, n),
            Err(err) => Err(err),
        },
{
}

/// An opened index, or an error, by value.
pub proof fn opened_by_value(open: OpenIndex, err: Error)
    ensures
        open_model(Ok(open)) == Ok::<_, error::ErrorModel>(open@),
        open_model(Err(err)) == Err::<OpenModel, _>(err@),
        open@.header == open.header,
        open@.data == open.source.data@,
        open@.end == open.source.end,
        open@.start == open.start,
        open@.count == open.count,
{
}

} // verus!
