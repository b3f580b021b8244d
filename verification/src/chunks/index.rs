//! Reference counts of every chunk.
use crate::chunks::header;
use crate::chunks::header::{open_index, read_hash, IndexHeader};
use crate::chunks::hash;
use crate::chunks::hash::{blake3_digest, hex, ChunkHash, HashAlgorithm};
use crate::chunks::table;
use crate::chunks::table::Table;
use crate::error;
use crate::error::{invalid, Error, ErrorKind};
use crate::text;
use crate::varint;
use crate::varint::{decode, encode, short_read, StreamEnd};
use std::collections::HashMap;
use vstd::bytes::*;
use vstd::prelude::*;
use vstd::slice::slice_subrange;

verus! {

/// Highest reference count that a loaded index may hold, so that counting up cannot overflow.
pub const MAX_REFERENCES: u64 = 0x4000_0000_0000_0000;

/// Reference counts of every chunk. They can always be counted again from the archives.
pub struct ChunkIndex {
    pub chunk_size: usize,
    pub max_chunk_count: usize,
    pub hash_algorithm: HashAlgorithm,
    chunks: Table,
}

/// The mathematical value of a [`ChunkIndex`].
#[verifier::ext_equal]
pub struct IndexModel {
    pub chunk_size: usize,
    pub max_chunk_count: usize,
    pub hash_algorithm: HashAlgorithm,
    pub counts: Map<ChunkHash, u64>,
}

impl View for ChunkIndex {
    type V = IndexModel;

    closed spec fn view(&self) -> IndexModel {
        IndexModel {
            chunk_size: self.chunk_size,
            max_chunk_count: self.max_chunk_count,
            hash_algorithm: self.hash_algorithm,
            counts: table::contents(self.chunks),
        }
    }
}

/// An index without chunks, with the settings of a header.
pub open spec fn empty_index(header: IndexHeader) -> IndexModel {
    IndexModel {
        chunk_size: header.chunk_size,
        max_chunk_count: header.max_chunk_count,
        hash_algorithm: header.hash_algorithm,
        counts: Map::empty(),
    }
}

/// The same settings with other counts.
pub open spec fn with_counts(index: IndexModel, counts: Map<ChunkHash, u64>) -> IndexModel {
    IndexModel { counts, ..index }
}

/// The count of a hash. One that is not there counts zero.
pub open spec fn references_of(counts: Map<ChunkHash, u64>, hash: ChunkHash) -> u64 {
    if counts.contains_key(hash) {
        counts[hash]
    } else {
        0
    }
}

/// One reference more, up to the highest count.
pub open spec fn raised(count: u64) -> u64 {
    if count < MAX_REFERENCES {
        (count + 1) as u64
    } else {
        MAX_REFERENCES
    }
}

/// One reference less, down to zero.
pub open spec fn lowered(count: u64) -> u64 {
    if count > 0 {
        (count - 1) as u64
    } else {
        0
    }
}

/// The error for a count that no backup can have reached.
pub open spec fn impossible_model(hash: ChunkHash) -> error::ErrorModel {
    error::invalid_model(
        "chunk "@ + hash::hex_text(hash@) + " has an impossible reference count"@,
    )
}

/// Reads `n` records of a hash and its count from `pos` on, into `counts`. Gives the counts and
/// the position behind the records.
pub open spec fn records_at(
    data: Seq<u8>,
    end: StreamEnd,
    pos: int,
    n: nat,
    counts: Map<ChunkHash, u64>,
) -> Result<(Map<ChunkHash, u64>, int), error::ErrorModel>
    decreases n,
{
    if n == 0 {
        Ok((counts, pos))
    } else if pos + 32 > data.len() {
        Err(varint::short_read_model(end))
    } else {
        let hash = header::hash_at(data, pos);
        match varint::varint_at(data, end, pos + 32) {
            Ok((references, next)) => if references > MAX_REFERENCES {
                Err(impossible_model(hash))
            } else {
                records_at(
                    data,
                    end,
                    next,
                    (n - 1) as nat,
                    counts.insert(hash, references as u64),
                )
            },
            Err(err) => Err(err),
        }
    }
}

/// The record section of a format 4 file: what lies between the header and the checksum.
pub open spec fn checked_records(bytes: Seq<u8>) -> Seq<u8> {
    if bytes.len() - 32 >= header::HEADER_LEN {
        bytes.subrange(header::HEADER_LEN as int, bytes.len() - 32)
    } else {
        Seq::empty()
    }
}

/// What the records of a format 4 file give. The checksum covers everything in front of it.
pub open spec fn loaded_checked(bytes: Seq<u8>, header: IndexHeader, count: u64) -> Result<
    IndexModel,
    error::ErrorModel,
> {
    if bytes.len() < 32 {
        Err(error::invalid_model("index is cut short"@))
    } else if hash::blake3_256(bytes.take(bytes.len() - 32))@ != bytes.skip(bytes.len() - 32) {
        Err(error::invalid_model("index does not match its checksum"@))
    } else {
        let records = checked_records(bytes);
        match records_at(records, StreamEnd::Complete, 0, count as nat, Map::empty()) {
            Ok((counts, pos)) => if pos < records.len() {
                Err(error::invalid_model("index has trailing data"@))
            } else {
                Ok(with_counts(empty_index(header), counts))
            },
            Err(err) => Err(err),
        }
    }
}

/// What the records of a format 2 or 3 file give.
pub open spec fn loaded_unchecked(open: header::OpenModel) -> Result<
    IndexModel,
    error::ErrorModel,
> {
    match records_at(open.data, open.end, open.start, open.count as nat, Map::empty()) {
        Ok((counts, pos)) => if pos < open.data.len() {
            Err(error::invalid_model("index has trailing data"@))
        } else if open.end != StreamEnd::Complete {
            Err(varint::short_read_model(open.end))
        } else {
            Ok(with_counts(empty_index(open.header), counts))
        },
        Err(err) => Err(err),
    }
}

/// What loading an index file gives.
pub open spec fn loaded(bytes: Seq<u8>) -> Result<IndexModel, error::ErrorModel> {
    match header::opened(bytes) {
        Ok(open) => if open.header.version == 1 {
            Err(
                error::error_model(
                    ErrorKind::Unsupported,
                    "index uses format 1; the repository has not been migrated"@,
                ),
            )
        } else if open.header.version == 4 {
            loaded_checked(bytes, open.header, open.count)
        } else {
            loaded_unchecked(open)
        },
        Err(err) => Err(err),
    }
}

/// An index, or an error, by value.
pub open spec fn index_model(result: Result<ChunkIndex, Error>) -> Result<
    IndexModel,
    error::ErrorModel,
> {
    match result {
        Ok(index) => Ok(index@),
        Err(err) => Err(err@),
    }
}

/// A record: the hash and its count.
pub open spec fn record_bytes(entry: (ChunkHash, u64)) -> Seq<u8> {
    entry.0@ + varint::varint_bytes(entry.1 as nat)
}

/// Records, one after the other.
pub open spec fn records_bytes(entries: Seq<(ChunkHash, u64)>) -> Seq<u8>
    decreases entries.len(),
{
    if entries.len() == 0 {
        Seq::empty()
    } else {
        record_bytes(entries[0]) + records_bytes(entries.drop_first())
    }
}

/// The header of a format 4 file.
pub open spec fn header_bytes(index: IndexModel, count: u64) -> Seq<u8> {
    header::magic(0x34) + spec_u32_to_le_bytes(index.chunk_size as u32) + spec_u32_to_le_bytes(
        index.max_chunk_count as u32,
    ) + seq![hash::algorithm_code(index.hash_algorithm)] + spec_u64_to_le_bytes(count)
}

/// A format 4 file that lists `entries`: header, records and the checksum over both.
pub open spec fn saved_bytes(index: IndexModel, entries: Seq<(ChunkHash, u64)>) -> Seq<u8> {
    let body = header_bytes(index, entries.len() as u64) + records_bytes(entries);
    body + hash::blake3_256(body)@
}

/// A format 1 record: the hash, its id and its count, and the position behind it.
pub open spec fn v1_record_at(data: Seq<u8>, end: StreamEnd, pos: int) -> Result<
    (ChunkHash, u64, u64, int),
    error::ErrorModel,
> {
    if pos + 32 > data.len() {
        Err(varint::short_read_model(end))
    } else {
        match varint::varint_at(data, end, pos + 32) {
            Ok((id, behind_id)) => match varint::varint_at(data, end, behind_id) {
                Ok((references, next)) => Ok(
                    (header::hash_at(data, pos), id as u64, references as u64, next),
                ),
                Err(err) => Err(err),
            },
            Err(err) => Err(err),
        }
    }
}

/// A record ends behind its start, within the data.
pub proof fn v1_record_moves_on(data: Seq<u8>, end: StreamEnd, pos: int)
    requires
        0 <= pos,
    ensures
        v1_record_at(data, end, pos) is Ok ==> pos < v1_record_at(data, end, pos)->Ok_0.3
            <= data.len(),
{
    varint::varint_at_moves_on(data, end, pos + 32);
    if let Ok((_, behind_id)) = varint::varint_at(data, end, pos + 32) {
        varint::varint_at_moves_on(data, end, behind_id);
    }
}

/// The counts and the ids that format 1 records give, read to the end of the data. The end has to
/// be a clean one.
pub open spec fn v1_records(
    data: Seq<u8>,
    end: StreamEnd,
    pos: int,
    counts: Map<ChunkHash, u64>,
    ids: Map<u64, ChunkHash>,
) -> Result<(Map<ChunkHash, u64>, Map<u64, ChunkHash>), error::ErrorModel>
    decreases data.len() - pos,
{
    if pos < 0 || pos >= data.len() {
        if end == StreamEnd::Complete {
            Ok((counts, ids))
        } else {
            Err(varint::short_read_model(end))
        }
    } else {
        match v1_record_at(data, end, pos) {
            Ok((hash, id, references, next)) => {
                proof {
                    v1_record_moves_on(data, end, pos);
                }
                v1_records(data, end, next, counts.insert(hash, references), ids.insert(id, hash))
            },
            Err(err) => Err(err),
        }
    }
}

/// The counts and the ids of the format 1 records in front of the first broken one.
pub open spec fn v1_salvage(
    data: Seq<u8>,
    end: StreamEnd,
    pos: int,
    counts: Map<ChunkHash, u64>,
    ids: Map<u64, ChunkHash>,
) -> (Map<ChunkHash, u64>, Map<u64, ChunkHash>)
    decreases data.len() - pos,
{
    if pos < 0 || pos >= data.len() {
        (counts, ids)
    } else {
        match v1_record_at(data, end, pos) {
            Ok((hash, id, references, next)) => {
                proof {
                    v1_record_moves_on(data, end, pos);
                }
                v1_salvage(data, end, next, counts.insert(hash, references), ids.insert(id, hash))
            },
            Err(_) => (counts, ids),
        }
    }
}

/// What loading a format 1 index gives. The stream can end cleanly before the promised number of
/// records.
pub open spec fn loaded_v1(bytes: Seq<u8>) -> Result<
    (IndexModel, Map<u64, ChunkHash>),
    error::ErrorModel,
> {
    match header::opened(bytes) {
        Ok(open) => if open.header.version != 1 {
            Err(error::invalid_model("index is not format 1"@))
        } else {
            match v1_records(open.data, open.end, open.start, Map::empty(), Map::empty()) {
                Ok((counts, ids)) => if ids.len() < open.count {
                    Err(
                        error::invalid_model(
                            "format 1 index holds "@ + text::decimal_text(ids.len()) + " of the "@
                                + text::decimal_text(open.count as nat)
                                + " chunks it was written with"@,
                        ),
                    )
                } else {
                    Ok((with_counts(empty_index(open.header), counts), ids))
                },
                Err(err) => Err(err),
            }
        },
        Err(err) => Err(err),
    }
}

/// What a damaged format 1 index still gives.
pub open spec fn salvaged_v1(bytes: Seq<u8>) -> Result<
    (IndexModel, Map<u64, ChunkHash>),
    error::ErrorModel,
> {
    match header::opened(bytes) {
        Ok(open) => if open.header.version != 1 {
            Err(error::invalid_model("index is not format 1"@))
        } else {
            let (counts, ids) = v1_salvage(
                open.data,
                open.end,
                open.start,
                Map::empty(),
                Map::empty(),
            );
            Ok((with_counts(empty_index(open.header), counts), ids))
        },
        Err(err) => Err(err),
    }
}

/// A format 1 index with its ids, or an error, by value.
pub open spec fn v1_model(result: Result<(ChunkIndex, HashMap<u64, ChunkHash>), Error>) -> Result<
    (IndexModel, Map<u64, ChunkHash>),
    error::ErrorModel,
> {
    match result {
        Ok((index, ids)) => Ok((index@, ids@)),
        Err(err) => Err(err@),
    }
}

/// Salvaging an index that is not damaged gives what loading it gives.
pub proof fn salvage_of_a_whole_index(bytes: Seq<u8>)
    ensures
        loaded_v1(bytes) is Ok ==> salvaged_v1(bytes) == loaded_v1(bytes),
{
    if let Ok(open) = header::opened(bytes) {
        salvage_of_whole_records(open.data, open.end, open.start, Map::empty(), Map::empty());
    }
}

proof fn salvage_of_whole_records(
    data: Seq<u8>,
    end: StreamEnd,
    pos: int,
    counts: Map<ChunkHash, u64>,
    ids: Map<u64, ChunkHash>,
)
    ensures
        v1_records(data, end, pos, counts, ids) is Ok ==> v1_records(data, end, pos, counts, ids)
            == Ok::<_, error::ErrorModel>(v1_salvage(data, end, pos, counts, ids)),
    decreases data.len() - pos,
{
    if 0 <= pos < data.len() {
        if let Ok((hash, id, references, next)) = v1_record_at(data, end, pos) {
            v1_record_moves_on(data, end, pos);
            salvage_of_whole_records(
                data,
                end,
                next,
                counts.insert(hash, references),
                ids.insert(id, hash),
            );
        }
    }
}

/// Whether an index can be written without loss: its settings fit the header and its counts are
/// ones that loading accepts.
pub open spec fn writable(index: IndexModel) -> bool {
    &&& index.chunk_size <= u32::MAX
    &&& index.max_chunk_count <= u32::MAX
    &&& forall|hash: ChunkHash| #[trigger]
        index.counts.contains_key(hash) ==> index.counts[hash] <= MAX_REFERENCES
}

/// The counts with entries put in, one after the other.
pub open spec fn inserted(counts: Map<ChunkHash, u64>, entries: Seq<(ChunkHash, u64)>) -> Map<
    ChunkHash,
    u64,
>
    decreases entries.len(),
{
    if entries.len() == 0 {
        counts
    } else {
        inserted(counts.insert(entries[0].0, entries[0].1), entries.drop_first())
    }
}

proof fn records_bytes_push(entries: Seq<(ChunkHash, u64)>, entry: (ChunkHash, u64))
    ensures
        records_bytes(entries.push(entry)) == records_bytes(entries) + record_bytes(entry),
    decreases entries.len(),
{
    let more = entries.push(entry);
    if entries.len() == 0 {
        assert(more.drop_first() =~= Seq::empty());
        assert(records_bytes(more.drop_first()) =~= Seq::empty());
        assert(records_bytes(more) =~= record_bytes(entry));
        assert(records_bytes(entries) + record_bytes(entry) =~= record_bytes(entry));
    } else {
        assert(more.drop_first() =~= entries.drop_first().push(entry));
        records_bytes_push(entries.drop_first(), entry);
        assert(records_bytes(more) =~= records_bytes(entries) + record_bytes(entry));
    }
}

/// Records that were written are read back, whatever stands in front of them.
proof fn records_round_trip(
    front: Seq<u8>,
    entries: Seq<(ChunkHash, u64)>,
    end: StreamEnd,
    counts: Map<ChunkHash, u64>,
)
    requires
        forall|i: int| 0 <= i < entries.len() ==> (#[trigger] entries[i]).1 <= MAX_REFERENCES,
    ensures
        records_at(
            front + records_bytes(entries),
            end,
            front.len() as int,
            entries.len(),
            counts,
        ) == Ok::<_, error::ErrorModel>(
            (
                inserted(counts, entries),
                (front.len() + records_bytes(entries).len()) as int,
            ),
        ),
    decreases entries.len(),
{
    if entries.len() > 0 {
        let (hash, count) = entries[0];
        let data = front + records_bytes(entries);
        let rest = entries.drop_first();
        let value = varint::varint_bytes(count as nat);
        assert(data =~= (front + hash@) + value + records_bytes(rest));
        varint::varint_round_trip(count, front + hash@, records_bytes(rest), end);
        assert(data.subrange(front.len() as int, front.len() + 32int) =~= hash@);
        header::hash_of_bytes(hash);
        let next_front = front + hash@ + value;
        assert(data =~= next_front + records_bytes(rest));
        assert forall|i: int| 0 <= i < rest.len() implies (#[trigger] rest[i]).1
            <= MAX_REFERENCES by {
            assert(rest[i] == entries[i + 1]);
        }
        records_round_trip(next_front, rest, end, counts.insert(hash, count));
    }
}

/// Entries with different hashes end up in the counts, and what was there before stays.
proof fn inserted_entries(counts: Map<ChunkHash, u64>, entries: Seq<(ChunkHash, u64)>)
    requires
        forall|i: int, j: int|
            0 <= i < j < entries.len() ==> (#[trigger] entries[i]).0 != (#[trigger] entries[j]).0,
    ensures
        forall|i: int|
            0 <= i < entries.len() ==> inserted(counts, entries).contains_key(
                (#[trigger] entries[i]).0,
            ) && inserted(counts, entries)[entries[i].0] == entries[i].1,
        forall|hash: ChunkHash|
            (forall|i: int| 0 <= i < entries.len() ==> (#[trigger] entries[i]).0 != hash) ==> (
            #[trigger] inserted(counts, entries).contains_key(hash) <==> counts.contains_key(hash))
                && inserted(counts, entries)[hash] == counts[hash],
    decreases entries.len(),
{
    if entries.len() > 0 {
        let rest = entries.drop_first();
        let more = counts.insert(entries[0].0, entries[0].1);
        assert forall|i: int, j: int| 0 <= i < j < rest.len() implies (#[trigger] rest[i]).0 != (
        #[trigger] rest[j]).0 by {
            assert(rest[i] == entries[i + 1] && rest[j] == entries[j + 1]);
        }
        inserted_entries(more, rest);
        assert forall|i: int| 0 <= i < entries.len() implies inserted(counts, entries).contains_key(
            (#[trigger] entries[i]).0,
        ) && inserted(counts, entries)[entries[i].0] == entries[i].1 by {
            if i == 0 {
                assert forall|j: int| 0 <= j < rest.len() implies (#[trigger] rest[j]).0
                    != entries[0].0 by {
                    assert(rest[j] == entries[j + 1]);
                }
                assert(inserted(more, rest).contains_key(entries[0].0));
            } else {
                assert(rest[i - 1] == entries[i]);
            }
        }
        assert forall|hash: ChunkHash|
            (forall|i: int| 0 <= i < entries.len() ==> (#[trigger] entries[i]).0 != hash) implies (
        #[trigger] inserted(counts, entries).contains_key(hash) <==> counts.contains_key(hash))
            && inserted(counts, entries)[hash] == counts[hash] by {
            assert(entries[0].0 != hash);
            assert forall|j: int| 0 <= j < rest.len() implies (#[trigger] rest[j]).0 != hash by {
                assert(rest[j] == entries[j + 1]);
            }
            assert(inserted(more, rest).contains_key(hash) <==> more.contains_key(hash));
        }
    }
}

/// Putting a list of a map's entries into an empty map gives that map.
proof fn inserted_list(entries: Seq<(ChunkHash, u64)>, counts: Map<ChunkHash, u64>)
    requires
        table::lists(entries, counts),
    ensures
        inserted(Map::empty(), entries) == counts,
{
    let built = inserted(Map::empty(), entries);
    inserted_entries(Map::empty(), entries);
    assert forall|hash: ChunkHash| #[trigger]
        built.contains_key(hash) <==> counts.contains_key(hash) by {
        if counts.contains_key(hash) {
            let i = choose|i: int| 0 <= i < entries.len() && (#[trigger] entries[i]).0 == hash;
            assert(built.contains_key(entries[i].0));
        } else {
            assert forall|i: int| 0 <= i < entries.len() implies (#[trigger] entries[i]).0
                != hash by {
                assert(counts.contains_key(entries[i].0));
            }
        }
    }
    assert forall|hash: ChunkHash| #[trigger]
        built.contains_key(hash) implies built[hash] == counts[hash] by {
        let i = choose|i: int| 0 <= i < entries.len() && (#[trigger] entries[i]).0 == hash;
        assert(built[entries[i].0] == entries[i].1);
    }
    assert(built =~= counts);
}

/// An index that was saved loads as it was: the same settings and the same counts.
pub proof fn saved_index_loads(index: IndexModel, entries: Seq<(ChunkHash, u64)>)
    requires
        writable(index),
        table::lists(entries, index.counts),
        entries.len() <= u64::MAX,
    ensures
        loaded(saved_bytes(index, entries)) == Ok::<_, error::ErrorModel>(index),
{
    let n = entries.len() as u64;
    let head = header_bytes(index, n);
    let records = records_bytes(entries);
    let body = head + records;
    let sum = hash::blake3_256(body);
    let bytes = saved_bytes(index, entries);
    lemma_auto_spec_u32_to_from_le_bytes();
    lemma_auto_spec_u64_to_from_le_bytes();
    assert(head.len() == 25);
    assert(bytes.take(8) =~= header::magic(0x34));
    assert(bytes.subrange(8, 12) =~= spec_u32_to_le_bytes(index.chunk_size as u32));
    assert(bytes.subrange(12, 16) =~= spec_u32_to_le_bytes(index.max_chunk_count as u32));
    assert(bytes[16] == hash::algorithm_code(index.hash_algorithm));
    assert(bytes.subrange(17, 25) =~= spec_u64_to_le_bytes(n));
    assert(bytes.take(bytes.len() - 32) =~= body);
    assert(bytes.skip(bytes.len() - 32) =~= sum@);
    assert(checked_records(bytes) =~= records);
    assert forall|i: int| 0 <= i < entries.len() implies (#[trigger] entries[i]).1
        <= MAX_REFERENCES by {
        assert(index.counts.contains_key(entries[i].0));
    }
    records_round_trip(Seq::empty(), entries, StreamEnd::Complete, Map::empty());
    assert(Seq::<u8>::empty() + records =~= records);
    inserted_list(entries, index.counts);
    assert(with_counts(
        empty_index(
            IndexHeader {
                version: 4,
                chunk_size: index.chunk_size,
                max_chunk_count: index.max_chunk_count,
                hash_algorithm: index.hash_algorithm,
            },
        ),
        index.counts,
    ) =~= index);
}

/// A file that does not match its checksum is never taken for an index, whatever its records say.
pub proof fn checksum_is_checked(bytes: Seq<u8>)
    requires
        header::has_magic(bytes, 0x34),
        bytes.len() >= 32,
        hash::blake3_256(bytes.take(bytes.len() - 32))@ != bytes.skip(bytes.len() - 32),
    ensures
        loaded(bytes) is Err,
{
}

/// Reads the format 1 record at `pos`.
fn read_v1_record(data: &[u8], end: StreamEnd, pos: usize) -> (record: Result<
    (ChunkHash, u64, u64, usize),
    Error,
>)
    requires
        pos <= data@.len(),
    ensures
        match (record, v1_record_at(data@, end, pos as int)) {
            (Ok((hash, id, references, next)), Ok((hash_spec, id_spec, references_spec, next_spec)))
                => hash == hash_spec && id == id_spec && references == references_spec && next
                == next_spec && pos < next <= data@.len(),
            (Err(err), Err(err_spec)) => err@ == err_spec && error::damage_kind(err@.kind),
            _ => false,
        },
{
    if data.len() - pos < 32 {
        return Err(short_read(end));
    }
    let hash = read_hash(data, pos);
    match decode(data, end, pos + 32) {
        Ok((id, behind_id)) => match decode(data, end, behind_id) {
            Ok((references, next)) => Ok((hash, id, references, next)),
            Err(err) => Err(err),
        },
        Err(err) => Err(err),
    }
}

fn same_bytes(a: &[u8], b: &[u8]) -> (same: bool)
    ensures
        same == (a@ == b@),
{
    if a.len() != b.len() {
        return false;
    }
    let mut i: usize = 0;
    while i < a.len()
        invariant
            i <= a@.len(),
            a@.len() == b@.len(),
            forall|j: int| 0 <= j < i ==> a@[j] == b@[j],
        decreases a@.len() - i,
    {
        if a[i] != b[i] {
            return false;
        }
        i = i + 1;
    }
    assert(a@ =~= b@);
    true
}

impl ChunkIndex {
    pub fn new(chunk_size: usize, max_chunk_count: usize, hash_algorithm: HashAlgorithm) -> (index:
        Self)
        ensures
            index@ == (IndexModel {
                chunk_size,
                max_chunk_count,
                hash_algorithm,
                counts: Map::empty(),
            }),
    {
        ChunkIndex { chunk_size, max_chunk_count, hash_algorithm, chunks: table::new_table() }
    }

    fn with_capacity(header: IndexHeader, capacity: u64) -> (index: Self)
        ensures
            index@ == empty_index(header),
    {
        let room: usize = if capacity < table::MAX_CAPACITY as u64 {
            capacity as usize
        } else {
            table::MAX_CAPACITY
        };
        ChunkIndex {
            chunk_size: header.chunk_size,
            max_chunk_count: header.max_chunk_count,
            hash_algorithm: header.hash_algorithm,
            chunks: table::table_with_capacity(room),
        }
    }

    /// The algorithm that names the chunks of this index.
    pub fn algorithm(&self) -> (algorithm: HashAlgorithm)
        ensures
            algorithm == self@.hash_algorithm,
    {
        self.hash_algorithm
    }

    pub fn len(&self) -> (len: usize)
        ensures
            len == self@.counts.len(),
    {
        table::size(&self.chunks)
    }

    pub fn is_empty(&self) -> (empty: bool)
        ensures
            empty <==> self@.counts =~= Map::empty(),
    {
        table::holds_nothing(&self.chunks)
    }

    pub fn contains(&self, hash: &ChunkHash) -> (found: bool)
        ensures
            found == self@.counts.contains_key(*hash),
    {
        table::has(&self.chunks, hash)
    }

    pub fn references(&self, hash: &ChunkHash) -> (count: u64)
        ensures
            count == references_of(self@.counts, *hash),
            count == if self@.counts.contains_key(*hash) {
                self@.counts[*hash]
            } else {
                0
            },
    {
        match table::look_up(&self.chunks, hash) {
            Some(count) => count,
            None => 0,
        }
    }

    /// Every chunk with its count, in no particular order.
    pub fn iter(&self) -> (entries: Vec<(ChunkHash, u64)>)
        ensures
            table::lists(entries@, self@.counts),
    {
        table::entries(&self.chunks)
    }

    /// Increments the reference count and returns it; 1 means the chunk is new.
    pub fn reference(&mut self, hash: &ChunkHash) -> (count: u64)
        ensures
            count == raised(references_of(old(self)@.counts, *hash)),
            !old(self)@.counts.contains_key(*hash) ==> count == 1,
            old(self)@.counts.contains_key(*hash) ==> count == if old(self)@.counts[*hash]
                < 0x4000_0000_0000_0000 {
                old(self)@.counts[*hash] + 1
            } else {
                0x4000_0000_0000_0000
            },
            final(self)@ == with_counts(old(self)@, old(self)@.counts.insert(*hash, count)),
    {
        let before: u64 = self.references(hash);
        let count: u64 = if before < MAX_REFERENCES {
            before + 1
        } else {
            MAX_REFERENCES
        };
        table::put(&mut self.chunks, *hash, count);
        count
    }

    /// Decrements the reference count and returns the new count.
    pub fn dereference(&mut self, hash: &ChunkHash) -> (count: u64)
        ensures
            count == lowered(references_of(old(self)@.counts, *hash)),
            count == if old(self)@.counts.contains_key(*hash) && old(self)@.counts[*hash] > 0 {
                old(self)@.counts[*hash] - 1
            } else {
                0
            },
            old(self)@.counts.contains_key(*hash) ==> final(self)@ == with_counts(
                old(self)@,
                old(self)@.counts.insert(*hash, count),
            ),
            !old(self)@.counts.contains_key(*hash) ==> final(self)@ == old(self)@,
    {
        match table::look_up(&self.chunks, hash) {
            Some(before) => {
                let count: u64 = if before > 0 {
                    before - 1
                } else {
                    0
                };
                table::put(&mut self.chunks, *hash, count);
                count
            },
            None => 0,
        }
    }

    pub fn remove(&mut self, hash: &ChunkHash)
        ensures
            final(self)@ == with_counts(old(self)@, old(self)@.counts.remove(*hash)),
    {
        table::take_out(&mut self.chunks, hash);
    }

    pub fn set(&mut self, hash: &ChunkHash, count: u64)
        ensures
            final(self)@ == with_counts(old(self)@, old(self)@.counts.insert(*hash, count)),
    {
        table::put(&mut self.chunks, *hash, count);
    }

    /// The chunks that nothing references, in no particular order.
    pub fn unreferenced(&self) -> (hashes: Vec<ChunkHash>)
        ensures
            hashes@.no_duplicates(),
            forall|hash: ChunkHash| #[trigger]
                hashes@.contains(hash) <==> self@.counts.contains_key(hash) && self@.counts[hash]
                    == 0,
    {
        let entries = self.iter();
        let mut hashes: Vec<ChunkHash> = Vec::new();
        let mut i: usize = 0;
        while i < entries.len()
            invariant
                i <= entries@.len(),
                table::lists(entries@, self@.counts),
                hashes@.no_duplicates(),
                forall|hash: ChunkHash| #[trigger]
                    hashes@.contains(hash) <==> exists|j: int|
                        0 <= j < i && #[trigger] entries@[j] == (hash, 0u64),
            decreases entries@.len() - i,
        {
            let (hash, count) = entries[i];
            if count == 0 {
                let ghost before = hashes@;
                hashes.push(hash);
                proof {
                    assert(!before.contains(hash));
                    assert forall|other: ChunkHash| #[trigger]
                        hashes@.contains(other) <==> exists|j: int|
                            0 <= j < i + 1 && #[trigger] entries@[j] == (other, 0u64) by {
                        if hashes@.contains(other) {
                            if other == hash {
                                assert(entries@[i as int] == (other, 0u64));
                            } else {
                                let k = choose|k: int|
                                    0 <= k < hashes@.len() && hashes@[k] == other;
                                assert(before[k] == other);
                                assert(before.contains(other));
                            }
                        }
                        if exists|j: int|
                            0 <= j < i + 1 && #[trigger] entries@[j] == (other, 0u64) {
                            let j = choose|j: int|
                                0 <= j < i + 1 && #[trigger] entries@[j] == (other, 0u64);
                            if j < i {
                                assert(before.contains(other));
                                let k = choose|k: int|
                                    0 <= k < before.len() && before[k] == other;
                                assert(hashes@[k] == other);
                            } else {
                                assert(hashes@[hashes@.len() - 1] == other);
                            }
                        }
                    }
                }
            } else {
                proof {
                    assert forall|other: ChunkHash| #[trigger]
                        hashes@.contains(other) <==> exists|j: int|
                            0 <= j < i + 1 && #[trigger] entries@[j] == (other, 0u64) by {
                        assert(entries@[i as int] != (other, 0u64));
                    }
                }
            }
            i = i + 1;
        }
        proof {
            assert forall|hash: ChunkHash| #[trigger]
                hashes@.contains(hash) <==> self@.counts.contains_key(hash) && self@.counts[hash]
                    == 0 by {
                if self@.counts.contains_key(hash) && self@.counts[hash] == 0 {
                    let j = choose|j: int|
                        0 <= j < entries@.len() && (#[trigger] entries@[j]).0 == hash;
                    assert(entries@[j] == (hash, 0u64));
                }
            }
        }
        hashes
    }

    /// Reads `count` records from `start` on. Gives the position behind them.
    fn read_records(&mut self, data: &[u8], end: StreamEnd, start: usize, count: u64) -> (behind:
        Result<usize, Error>)
        requires
            start <= data@.len(),
        ensures
            match (
                behind,
                records_at(data@, end, start as int, count as nat, old(self)@.counts),
            ) {
                (Ok(pos), Ok((counts, pos_spec))) => pos == pos_spec && pos <= data@.len()
                    && final(self)@ == with_counts(old(self)@, counts),
                (Err(err), Err(err_spec)) => err@ == err_spec,
                _ => false,
            },
    {
        let mut pos: usize = start;
        let mut left: u64 = count;
        while left > 0
            invariant
                pos <= data@.len(),
                self@ == with_counts(old(self)@, self@.counts),
                records_at(data@, end, start as int, count as nat, old(self)@.counts)
                    == records_at(data@, end, pos as int, left as nat, self@.counts),
            decreases left,
        {
            if data.len() - pos < 32 {
                return Err(short_read(end));
            }
            let hash = read_hash(data, pos);
            match decode(data, end, pos + 32) {
                Ok((references, next)) => {
                    if references > MAX_REFERENCES {
                        let name = hex(&hash);
                        return Err(
                            invalid(
                                text::join3(
                                    "chunk ",
                                    name.as_str(),
                                    " has an impossible reference count",
                                ),
                            ),
                        );
                    }
                    table::put(&mut self.chunks, hash, references);
                    pos = next;
                },
                Err(err) => {
                    return Err(err);
                },
            }
            left = left - 1;
        }
        Ok(pos)
    }

    /// Loads a format 2 to 4 index. Format 1 is an error; the repository migrates it first.
    pub fn load(bytes: &[u8]) -> (index: Result<Self, Error>)
        ensures
            index_model(index) == loaded(bytes@),
    {
        let open = match open_index(bytes) {
            Ok(open) => open,
            Err(err) => return Err(err),
        };
        if open.header.version == 1 {
            return Err(
                Error::new(
                    ErrorKind::Unsupported,
                    "index uses format 1; the repository has not been migrated".to_owned(),
                ),
            );
        }
        if open.header.version == 4 {
            return ChunkIndex::load_checked(bytes, open.header, open.count);
        }
        let mut index = ChunkIndex::with_capacity(open.header, open.count);
        proof {
            header::opened_in_data(bytes@);
        }
        let data = open.source.data.as_slice();
        match index.read_records(data, open.source.end, open.start, open.count) {
            Ok(pos) => if pos < data.len() {
                Err(invalid("index has trailing data".to_owned()))
            } else if open.source.end != StreamEnd::Complete {
                Err(short_read(open.source.end))
            } else {
                Ok(index)
            },
            Err(err) => Err(err),
        }
    }

    /// Loads a format 4 index, whose header has been read, after a look at its checksum.
    fn load_checked(bytes: &[u8], header: IndexHeader, count: u64) -> (index: Result<Self, Error>)
        ensures
            index_model(index) == loaded_checked(bytes@, header, count),
    {
        if bytes.len() < 32 {
            return Err(invalid("index is cut short".to_owned()));
        }
        let body: usize = bytes.len() - 32;
        let checksum = blake3_digest(slice_subrange(bytes, 0, body));
        let stored = slice_subrange(bytes, body, bytes.len());
        proof {
            assert(bytes@.subrange(0, body as int) =~= bytes@.take(body as int));
            assert(stored@ =~= bytes@.skip(body as int));
        }
        if !same_bytes(checksum.as_slice(), stored) {
            return Err(invalid("index does not match its checksum".to_owned()));
        }
        let records = if body >= header::HEADER_LEN {
            slice_subrange(bytes, header::HEADER_LEN, body)
        } else {
            slice_subrange(bytes, 0, 0)
        };
        assert(records@ =~= checked_records(bytes@));
        // A record is at least 33 bytes, which caps what a damaged count can allocate.
        let most: u64 = records.len() as u64 / 33;
        let mut index = ChunkIndex::with_capacity(
            header,
            if count < most {
                count
            } else {
                most
            },
        );
        match index.read_records(records, StreamEnd::Complete, 0, count) {
            Ok(pos) => if pos < records.len() {
                Err(invalid("index has trailing data".to_owned()))
            } else {
                Ok(index)
            },
            Err(err) => Err(err),
        }
    }

    /// A format 4 file that lists `entries`.
    pub fn encode_entries(&self, entries: &Vec<(ChunkHash, u64)>) -> (bytes: Vec<u8>)
        ensures
            bytes@ == saved_bytes(self@, entries@),
            ({
                let body = seq![0x44u8, 0x44u8, 0x55u8, 0x50u8, 0x49u8, 0x44u8, 0x58u8, 0x34u8]
                    + spec_u32_to_le_bytes(self@.chunk_size as u32) + spec_u32_to_le_bytes(
                    self@.max_chunk_count as u32,
                ) + seq![
                    if self@.hash_algorithm is Blake3 {
                        1u8
                    } else {
                        0u8
                    },
                ] + spec_u64_to_le_bytes(entries@.len() as u64) + records_bytes(entries@);
                bytes@ == body + hash::blake3_256(body)@
            }),
    {
        let mut bytes: Vec<u8> = Vec::new();
        bytes.push(0x44);
        bytes.push(0x44);
        bytes.push(0x55);
        bytes.push(0x50);
        bytes.push(0x49);
        bytes.push(0x44);
        bytes.push(0x58);
        bytes.push(0x34);
        assert(bytes@ =~= header::magic(0x34));
        let mut chunk_size = u32_to_le_bytes(self.chunk_size as u32);
        bytes.append(&mut chunk_size);
        let mut max_chunk_count = u32_to_le_bytes(self.max_chunk_count as u32);
        bytes.append(&mut max_chunk_count);
        bytes.push(self.hash_algorithm.encode());
        let mut count = u64_to_le_bytes(entries.len() as u64);
        bytes.append(&mut count);
        let ghost head = header_bytes(self@, entries@.len() as u64);
        assert(bytes@ =~= head);

        let mut i: usize = 0;
        assert(bytes@ =~= head + records_bytes(entries@.take(0)));
        while i < entries.len()
            invariant
                i <= entries@.len(),
                bytes@ == head + records_bytes(entries@.take(i as int)),
            decreases entries@.len() - i,
        {
            let (hash, count) = entries[i];
            let ghost before = bytes@;
            bytes.extend_from_slice(hash.as_slice());
            assert(bytes@ =~= before + hash@);
            encode(&mut bytes, count);
            proof {
                records_bytes_push(entries@.take(i as int), entries@[i as int]);
                assert(entries@.take(i as int).push(entries@[i as int]) =~= entries@.take(i + 1));
                assert(bytes@ =~= head + records_bytes(entries@.take(i + 1)));
            }
            i = i + 1;
        }
        assert(entries@.take(entries@.len() as int) =~= entries@);
        let ghost body = bytes@;
        let checksum = blake3_digest(bytes.as_slice());
        bytes.extend_from_slice(checksum.as_slice());
        assert(bytes@ =~= body + checksum@);
        bytes
    }

    /// The file that keeps this index. It loads as the index is.
    pub fn save(&self) -> (bytes: Vec<u8>)
        ensures
            exists|entries: Seq<(ChunkHash, u64)>|
                table::lists(entries, self@.counts) && bytes@ == #[trigger] saved_bytes(
                    self@,
                    entries,
                ),
            writable(self@) ==> loaded(bytes@) == Ok::<_, error::ErrorModel>(self@),
            self@.chunk_size <= 0xffff_ffff && self@.max_chunk_count <= 0xffff_ffff && (forall|
                hash: ChunkHash,
            |
                self@.counts.contains_key(hash) ==> #[trigger] self@.counts[hash]
                    <= 0x4000_0000_0000_0000) ==> loaded(bytes@) == Ok::<_, error::ErrorModel>(
                self@,
            ),
    {
        let entries = self.iter();
        let bytes = self.encode_entries(&entries);
        proof {
            if writable(self@) {
                assert(entries@.len() == entries.len());
                saved_index_loads(self@, entries@);
            }
        }
        bytes
    }

    /// Loads a format 1 index and the chunk id map its archives reference.
    pub fn load_v1(bytes: &[u8]) -> (loaded: Result<(Self, HashMap<u64, ChunkHash>), Error>)
        ensures
            v1_model(loaded) == loaded_v1(bytes@),
    {
        let open = match open_index(bytes) {
            Ok(open) => open,
            Err(err) => return Err(err),
        };
        if open.header.version != 1 {
            return Err(invalid("index is not format 1".to_owned()));
        }
        proof {
            header::opened_in_data(bytes@);
        }
        let data = open.source.data.as_slice();
        let end = open.source.end;
        let mut index = ChunkIndex::new(
            open.header.chunk_size,
            open.header.max_chunk_count,
            open.header.hash_algorithm,
        );
        let mut ids: HashMap<u64, ChunkHash> = HashMap::new();
        let mut pos: usize = open.start;
        while pos < data.len()
            invariant
                header::opened(bytes@) == Ok::<_, error::ErrorModel>(open@),
                open.header.version == 1,
                data@ == open.source.data@,
                end == open.source.end,
                pos <= data@.len(),
                index@ == with_counts(empty_index(open.header), index@.counts),
                v1_records(data@, end, open.start as int, Map::empty(), Map::empty())
                    == v1_records(data@, end, pos as int, index@.counts, ids@),
            decreases data@.len() - pos,
        {
            match read_v1_record(data, end, pos) {
                Ok((hash, id, references, next)) => {
                    table::put(&mut index.chunks, hash, references);
                    ids.insert(id, hash);
                    pos = next;
                },
                Err(err) => {
                    return Err(err);
                },
            }
        }
        if end != StreamEnd::Complete {
            return Err(short_read(end));
        }
        let found: u64 = ids.len() as u64;
        if found < open.count {
            let held = text::decimal(found);
            let promised = text::decimal(open.count);
            let mut message = text::join4(
                "format 1 index holds ",
                held.as_str(),
                " of the ",
                promised.as_str(),
            );
            message.append(" chunks it was written with");
            return Err(invalid(message));
        }
        Ok((index, ids))
    }

    /// `load_v1` for a damaged index: keeps every record up to the first broken one. Archives whose
    /// ids all survive migrate normally. Only a rebuild uses this, since it gives up on the rest.
    pub fn salvage_v1(bytes: &[u8]) -> (salvaged: Result<(Self, HashMap<u64, ChunkHash>), Error>)
        ensures
            v1_model(salvaged) == salvaged_v1(bytes@),
    {
        let open = match open_index(bytes) {
            Ok(open) => open,
            Err(err) => return Err(err),
        };
        if open.header.version != 1 {
            return Err(invalid("index is not format 1".to_owned()));
        }
        proof {
            header::opened_in_data(bytes@);
        }
        let data = open.source.data.as_slice();
        let end = open.source.end;
        let mut index = ChunkIndex::new(
            open.header.chunk_size,
            open.header.max_chunk_count,
            open.header.hash_algorithm,
        );
        let mut ids: HashMap<u64, ChunkHash> = HashMap::new();
        let mut pos: usize = open.start;
        while pos < data.len()
            invariant_except_break
                data@ == open.source.data@,
                end == open.source.end,
                pos <= data@.len(),
                v1_salvage(data@, end, open.start as int, Map::empty(), Map::empty())
                    == v1_salvage(data@, end, pos as int, index@.counts, ids@),
            invariant
                index@ == with_counts(empty_index(open.header), index@.counts),
            ensures
                v1_salvage(
                    open.source.data@,
                    open.source.end,
                    open.start as int,
                    Map::empty(),
                    Map::empty(),
                ) == (index@.counts, ids@),
            decreases data@.len() - pos,
        {
            match read_v1_record(data, end, pos) {
                Ok((hash, id, references, next)) => {
                    table::put(&mut index.chunks, hash, references);
                    ids.insert(id, hash);
                    pos = next;
                },
                // Everything that can be wrong with a record is damage, and damage ends them.
                Err(_) => {
                    break;
                },
            }
        }
        Ok((index, ids))
    }

    pub fn load_header(bytes: &[u8]) -> (header: Result<IndexHeader, Error>)
        ensures
            match (header, header::opened(bytes@)) {
                (Ok(header), Ok(open)) => header == open.header,
                (Err(err), Err(err_spec)) => err@ == err_spec,
                _ => false,
            },
    {
        match open_index(bytes) {
            Ok(open) => Ok(open.header),
            Err(err) => Err(err),
        }
    }
}

/// Settings stay where counts are replaced, and an index without chunks has the settings of its
/// header.
pub proof fn settings_stay(index: IndexModel, header: IndexHeader, counts: Map<ChunkHash, u64>)
    ensures
        with_counts(index, counts).chunk_size == index.chunk_size,
        with_counts(index, counts).max_chunk_count == index.max_chunk_count,
        with_counts(index, counts).hash_algorithm == index.hash_algorithm,
        with_counts(index, counts).counts == counts,
        empty_index(header).chunk_size == header.chunk_size,
        empty_index(header).max_chunk_count == header.max_chunk_count,
        empty_index(header).hash_algorithm == header.hash_algorithm,
        empty_index(header).counts == Map::<ChunkHash, u64>::empty(),
{
}

/// The count of a chunk is the one that is known, or zero; one more or one less of it stays between
/// zero and the highest count.
pub proof fn counts_one_by_one(counts: Map<ChunkHash, u64>, hash: ChunkHash, count: u64)
    ensures
        counts.contains_key(hash) ==> references_of(counts, hash) == counts[hash],
        !counts.contains_key(hash) ==> references_of(counts, hash) == 0,
        raised(count) == if count < 0x4000_0000_0000_0000 {
            count + 1
        } else {
            0x4000_0000_0000_0000
        },
        lowered(count) == if count > 0 {
            count - 1
        } else {
            0
        },
{
}

/// Records are written one behind the other: the hash and then its count.
pub proof fn records_are_written_in_order(entries: Seq<(ChunkHash, u64)>, hash: ChunkHash, count:
    u64)
    ensures
        records_bytes(Seq::empty()) == Seq::<u8>::empty(),
        records_bytes(entries.push((hash, count))) == records_bytes(entries) + hash@
            + varint::varint_bytes(count as nat),
{
    records_bytes_push(entries, (hash, count));
    assert(records_bytes(entries) + record_bytes((hash, count)) =~= records_bytes(entries) + hash@
        + varint::varint_bytes(count as nat));
}

/// Records are read one by one: each gives its hash its count, which must be one that can be
/// reached, and one that is cut off is an error.
pub proof fn records_are_read_one_by_one(
    data: Seq<u8>,
    end: StreamEnd,
    pos: int,
    n: nat,
    counts: Map<ChunkHash, u64>,
    hash: ChunkHash,
)
    requires
        0 <= pos,
        pos + 32 <= data.len() ==> data.subrange(pos, pos + 32) == hash@,
    ensures
        records_at(data, end, pos, 0, counts) == Ok::<_, error::ErrorModel>((counts, pos)),
        pos + 32 > data.len() ==> records_at(data, end, pos, n + 1, counts) is Err,
        pos + 32 <= data.len() ==> match varint::varint_at(data, end, pos + 32) {
            Err(err) => records_at(data, end, pos, n + 1, counts) == Err::<
                (Map<ChunkHash, u64>, int),
                _,
            >(err),
            Ok((count, next)) => if count > 0x4000_0000_0000_0000 {
                &&& records_at(data, end, pos, n + 1, counts) is Err
                &&& records_at(data, end, pos, n + 1, counts)->Err_0.kind is InvalidData
            } else {
                records_at(data, end, pos, n + 1, counts) == records_at(
                    data,
                    end,
                    next,
                    n,
                    counts.insert(hash, count as u64),
                )
            },
        },
{
    header::hash_of_bytes(hash);
}

/// What loading an index gives, by its format. Format 1 has to be migrated; format 4 has to match
/// its checksum; and in every format there are exactly the records that the header promises.
pub proof fn indexes_load_by_format(bytes: Seq<u8>)
    ensures
        match header::opened(bytes) {
            Err(err) => loaded(bytes) == Err::<IndexModel, _>(err),
            Ok(open) => {
                let checked = open.header.version == 4;
                let records = if !checked {
                    open.data
                } else if bytes.len() >= 57 {
                    bytes.subrange(25, bytes.len() - 32)
                } else {
                    Seq::empty()
                };
                let read = records_at(
                    records,
                    if checked {
                        StreamEnd::Complete
                    } else {
                        open.end
                    },
                    if checked {
                        0
                    } else {
                        open.start
                    },
                    open.count as nat,
                    Map::empty(),
                );
                if open.header.version == 1 {
                    loaded(bytes) is Err && loaded(bytes)->Err_0.kind is Unsupported
                } else if checked && (bytes.len() < 32 || hash::blake3_256(
                    bytes.take(bytes.len() - 32),
                )@ != bytes.skip(bytes.len() - 32)) {
                    loaded(bytes) is Err && loaded(bytes)->Err_0.kind is InvalidData
                } else {
                    match read {
                        Err(err) => loaded(bytes) == Err::<IndexModel, _>(err),
                        Ok((counts, pos)) => if pos < records.len() {
                            loaded(bytes) is Err && loaded(bytes)->Err_0.kind is InvalidData
                        } else if !checked && !(open.end is Complete) {
                            loaded(bytes) is Err
                        } else {
                            loaded(bytes) == Ok::<_, error::ErrorModel>(
                                IndexModel {
                                    chunk_size: open.header.chunk_size,
                                    max_chunk_count: open.header.max_chunk_count,
                                    hash_algorithm: open.header.hash_algorithm,
                                    counts,
                                },
                            )
                        },
                    }
                }
            },
        },
{
    if let Ok(open) = header::opened(bytes) {
        if open.header.version == 4 && bytes.len() >= 32 {
            assert(checked_records(bytes) == if bytes.len() >= 57 {
                bytes.subrange(25, bytes.len() - 32)
            } else {
                Seq::empty()
            });
        }
    }
}

/// Format 1 records are read one by one to the end of the data: each gives its hash its count, and
/// its id its hash. A record that cannot be read is an error when the index is loaded, and the end
/// when it is salvaged.
pub proof fn ids_are_read_one_by_one(
    data: Seq<u8>,
    end: StreamEnd,
    pos: int,
    counts: Map<ChunkHash, u64>,
    ids: Map<u64, ChunkHash>,
    hash: ChunkHash,
)
    requires
        0 <= pos,
        pos + 32 <= data.len() ==> data.subrange(pos, pos + 32) == hash@,
    ensures
        pos >= data.len() ==> v1_salvage(data, end, pos, counts, ids) == (counts, ids),
        pos >= data.len() && end is Complete ==> v1_records(data, end, pos, counts, ids) == Ok::<
            _,
            error::ErrorModel,
        >((counts, ids)),
        pos >= data.len() && !(end is Complete) ==> v1_records(data, end, pos, counts, ids) is Err,
        pos < data.len() ==> ({
            let id = varint::varint_at(data, end, pos + 32);
            let count = varint::varint_at(data, end, id->Ok_0.1);
            if pos + 32 <= data.len() && id is Ok && count is Ok {
                let next = count->Ok_0.1;
                let more = counts.insert(hash, count->Ok_0.0 as u64);
                let known = ids.insert(id->Ok_0.0 as u64, hash);
                &&& v1_records(data, end, pos, counts, ids) == v1_records(
                    data,
                    end,
                    next,
                    more,
                    known,
                )
                &&& v1_salvage(data, end, pos, counts, ids) == v1_salvage(
                    data,
                    end,
                    next,
                    more,
                    known,
                )
            } else {
                &&& v1_records(data, end, pos, counts, ids) is Err
                &&& v1_salvage(data, end, pos, counts, ids) == (counts, ids)
            }
        }),
{
    header::hash_of_bytes(hash);
}

/// What a format 1 index gives: the settings of its header and all of its records. Loading it is an
/// error if there are fewer ids than the header promises; salvaging it is not.
pub proof fn old_indexes_are_read_whole(bytes: Seq<u8>)
    ensures
        match header::opened(bytes) {
            Err(err) => loaded_v1(bytes) is Err && salvaged_v1(bytes) is Err,
            Ok(open) => if open.header.version != 1 {
                loaded_v1(bytes) is Err && salvaged_v1(bytes) is Err
            } else {
                let salvage = v1_salvage(
                    open.data,
                    open.end,
                    open.start,
                    Map::empty(),
                    Map::empty(),
                );
                let records = v1_records(
                    open.data,
                    open.end,
                    open.start,
                    Map::empty(),
                    Map::empty(),
                );
                let settings = |counts: Map<ChunkHash, u64>|
                    IndexModel {
                        chunk_size: open.header.chunk_size,
                        max_chunk_count: open.header.max_chunk_count,
                        hash_algorithm: open.header.hash_algorithm,
                        counts,
                    };
                &&& salvaged_v1(bytes) == Ok::<_, error::ErrorModel>(
                    (settings(salvage.0), salvage.1),
                )
                &&& records is Err ==> loaded_v1(bytes) == Err::<
                    (IndexModel, Map<u64, ChunkHash>),
                    _,
                >(records->Err_0)
                &&& records is Ok && records->Ok_0.1.len() < open.count ==> loaded_v1(bytes)
                    is Err && loaded_v1(bytes)->Err_0.kind is InvalidData && loaded_v1(
                    bytes,
                )->Err_0.message == "format 1 index holds "@ + text::decimal_text(
                    records->Ok_0.1.len(),
                ) + " of the "@ + text::decimal_text(open.count as nat)
                    + " chunks it was written with"@
                &&& records is Ok && records->Ok_0.1.len() >= open.count ==> loaded_v1(bytes)
                    == Ok::<_, error::ErrorModel>((settings(records->Ok_0.0), records->Ok_0.1))
            },
        },
{
}

/// An index, or an error, by value.
pub proof fn index_by_value(index: ChunkIndex, ids: HashMap<u64, ChunkHash>, err: Error)
    ensures
        index_model(Ok(index)) == Ok::<_, error::ErrorModel>(index@),
        index_model(Err(err)) == Err::<IndexModel, _>(err@),
        v1_model(Ok((index, ids))) == Ok::<_, error::ErrorModel>((index@, ids@)),
        v1_model(Err(err)) == Err::<(IndexModel, Map<u64, ChunkHash>), _>(err@),
{
}

/// What is said of a count that cannot be names the chunk.
pub proof fn impossible_counts_are_named(hash: ChunkHash)
    ensures
        impossible_model(hash).kind is InvalidData,
        impossible_model(hash).message == "chunk "@ + hash::hex_text(hash@)
            + " has an impossible reference count"@,
{
}

} // verus!
