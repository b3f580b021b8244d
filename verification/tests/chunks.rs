//! Chunks, the index and its counts, on given values.
use ddup_bak::chunks::cdc::{
    cdc_parameters, cut_file, ranges, reads_whole, split, CutSizes, FileCuts,
};
use ddup_bak::chunks::chunk::{
    encode_chunk, frame_chunk, read_chunk, read_chunk_unverified, settle_chunk, trusted_size,
    MAX_CHUNK_SIZE,
};
use ddup_bak::chunks::codec::{inflate, inflate_all, CompressionFormat};
use ddup_bak::chunks::detect::{detect_hash_algorithm, Detection};
use ddup_bak::chunks::hash::same_hash;
use ddup_bak::chunks::header::{open_index, read_hash};
use ddup_bak::chunks::table::PrefixHasher;
use ddup_bak::chunks::{entry_hashes, hex, ChunkHash, ChunkIndex, HashAlgorithm};
use ddup_bak::entries::{
    collect_hashes, entry_body, entry_hashes_v1, DirectoryEntry, Entry, FileEntry, SymlinkEntry,
    Timestamp,
};
use ddup_bak::error::{invalid, is_damage, named, record, Error, ErrorKind};
use ddup_bak::migrate::{flatten, migrate_v1_entries};
use ddup_bak::text;
use ddup_bak::varint;
use ddup_bak::varint::StreamEnd;
use std::collections::HashMap;
use std::hash::Hasher;
use std::io::Write;

const EPOCH: Timestamp = Timestamp { seconds: 0, nanos: 0 };

fn random(len: usize) -> Vec<u8> {
    let mut state: u64 = 0x9E3779B97F4A7C15;
    (0..len)
        .map(|_| {
            state ^= state << 13;
            state ^= state >> 7;
            state ^= state << 17;
            state as u8
        })
        .collect()
}

fn deflated(plain: &[u8]) -> Vec<u8> {
    let mut encoder =
        flate2::write::DeflateEncoder::new(Vec::new(), flate2::Compression::default());
    encoder.write_all(plain).unwrap();
    encoder.finish().unwrap()
}

fn file(name: &str, size_real: u64, body: Result<Vec<u8>, Error>) -> FileEntry {
    FileEntry { name: name.to_string(), mode: 0o644, owner: (1, 2), mtime: EPOCH, size_real, body }
}

fn fail(kind: ErrorKind) -> Error {
    Error::new(kind, "no luck".to_string())
}

fn sorted(mut entries: Vec<(ChunkHash, u64)>) -> Vec<(ChunkHash, u64)> {
    entries.sort();
    entries
}

fn index_of(counts: &[(ChunkHash, u64)]) -> ChunkIndex {
    let mut index = ChunkIndex::new(4096, 7, HashAlgorithm::Blake3);
    for (hash, count) in counts {
        index.set(hash, *count);
    }
    index
}

const A: ChunkHash = [1; 32];
const B: ChunkHash = [2; 32];
const C: ChunkHash = [3; 32];

#[test]
fn digests_are_those_of_the_algorithms() {
    let blake2b = HashAlgorithm::Blake2b256;
    assert_eq!(
        hex(&blake2b.hash(b"")),
        "0e5751c026e543b2e8ab2eb06099daa1d1e5df47778f7787faab45cdf12fe3a8"
    );
    assert_eq!(
        hex(&blake2b.hash(b"abc")),
        "bddd813c634239723171ef3fee98579b94964e3bb1cb3e427262c8c068d52319"
    );
    assert_eq!(
        hex(&HashAlgorithm::Blake3.hash(b"")),
        "af1349b9f5f9a1a6a0404dea36dcc9499bcb25c9adc112b7cc9a93cae41f3262"
    );
    assert_eq!(
        hex(&HashAlgorithm::Blake3.hash(b"abc")),
        "6437b3ac38465133ffb63b75273a8db548c558465d79db03fd359c6cd5bd9d85"
    );
}

#[test]
fn hashes_are_written_in_lowercase_hexadecimal() {
    let mut hash = [0; 32];
    hash[0] = 0x0f;
    hash[1] = 0xa0;
    hash[31] = 0xff;
    assert_eq!(hex(&hash), format!("0fa0{}ff", "0".repeat(58)));
    assert_ne!(hex(&A), hex(&B));
    assert!(same_hash(&A, &[1; 32]));
    assert!(!same_hash(&A, &hash));
}

#[test]
fn algorithms_have_names_and_codes() {
    assert_eq!(HashAlgorithm::default(), HashAlgorithm::Blake2b256);
    for algorithm in [HashAlgorithm::Blake2b256, HashAlgorithm::Blake3] {
        assert_eq!(HashAlgorithm::try_decode(algorithm.encode()).unwrap(), algorithm);
    }
    assert_eq!((HashAlgorithm::Blake2b256.encode(), HashAlgorithm::Blake3.encode()), (0, 1));
    let err = HashAlgorithm::try_decode(2).unwrap_err();
    assert_eq!((err.kind, err.message.as_str()), (ErrorKind::InvalidData, "invalid hash algorithm"));

    assert_eq!("blake2b".parse::<HashAlgorithm>().unwrap(), HashAlgorithm::Blake2b256);
    assert_eq!(HashAlgorithm::from_name("blake3").unwrap(), HashAlgorithm::Blake3);
    let err = HashAlgorithm::from_name("sha\"1\n").unwrap_err();
    assert_eq!(err.kind, ErrorKind::InvalidData);
    assert_eq!(err.message, "unknown hash algorithm \"sha\\\"1\\n\"");
}

#[test]
fn compressions_have_codes() {
    let formats = [
        (CompressionFormat::Raw, 0),
        (CompressionFormat::Deflate, 2),
        (CompressionFormat::Brotli, 3),
        (CompressionFormat::Zstd, 4),
    ];
    for (format, code) in formats {
        assert_eq!(format.encode(), code);
        assert_eq!(CompressionFormat::try_decode(code).unwrap(), format);
    }
    for code in [1, 5, 255] {
        let err = CompressionFormat::try_decode(code).unwrap_err();
        assert_eq!(err.kind, ErrorKind::InvalidData);
        assert_eq!(err.message, "invalid compression format");
    }
}

#[test]
fn numbers_are_written_in_decimal() {
    let numbers = [(0, "0"), (9, "9"), (10, "10"), (1234, "1234"), (u64::MAX, "18446744073709551615")];
    for (number, shown) in numbers {
        assert_eq!(text::decimal(number), shown);
    }
    assert_eq!((0..16).map(text::digit).collect::<String>(), "0123456789abcdef");
}

#[test]
fn prefixes_and_suffixes_are_found() {
    assert_eq!(text::strip_suffix("a.ddup", ".ddup"), Some("a"));
    assert_eq!(text::strip_suffix(".ddup", ".ddup"), Some(""));
    assert_eq!(text::strip_suffix("文.ddup", ".ddup"), Some("文"));
    assert_eq!(text::strip_suffix("ddup", ".ddup"), None);
    assert!(text::starts_with(".partial-1", ".partial-"));
    assert!(!text::starts_with(".part", ".partial-"));
    assert_eq!(text::byte_len("文a"), 4);
    assert_eq!(text::join2("a", "b"), "ab");
    assert_eq!(text::join3("a", "b", "c"), "abc");
    assert_eq!(text::join4("a", "b", "c", "d"), "abcd");
    assert!(text::same_text("a", "a") && !text::same_text("a", "b"));
}

#[test]
fn varints_read_back() {
    let values = [0, 1, 127, 128, 300, 16_383, 16_384, 1 << 62, u64::MAX];
    let mut bytes = vec![0xEE];
    for value in values {
        varint::encode(&mut bytes, value);
    }
    let mut pos = 1;
    for value in values {
        let (read, next) = varint::decode(&bytes, StreamEnd::Complete, pos).unwrap();
        assert_eq!(read, value);
        pos = next;
    }
    assert_eq!(pos, bytes.len());

    let mut bytes = Vec::new();
    varint::encode(&mut bytes, 300);
    assert_eq!(bytes, [0xAC, 0x02]);
}

#[test]
fn varints_that_break_off_or_overflow_are_errors() {
    let short = |end| varint::decode(&[0x80], end, 0).unwrap_err();
    let err = short(StreamEnd::Complete);
    assert_eq!(err.kind, ErrorKind::UnexpectedEof);
    assert_eq!(err.message, "failed to fill whole buffer");
    let err = short(StreamEnd::Incomplete);
    assert_eq!(err.kind, ErrorKind::UnexpectedEof);
    assert_eq!(err.message, "incomplete deflate stream");
    let err = short(StreamEnd::Corrupt);
    assert_eq!(err.kind, ErrorKind::InvalidInput);
    assert_eq!(err.message, "corrupt deflate stream");

    for bytes in [[0xFF; 10], [0xFF, 0xFF, 0xFF, 0xFF, 0xFF, 0xFF, 0xFF, 0xFF, 0xFF, 0x02]] {
        let err = varint::decode(&bytes, StreamEnd::Complete, 0).unwrap_err();
        assert_eq!(err.kind, ErrorKind::InvalidData);
        assert_eq!(err.message, "varint overflows 64 bits");
    }
}

#[test]
fn only_corrupt_data_is_damage() {
    for kind in [ErrorKind::InvalidData, ErrorKind::InvalidInput, ErrorKind::UnexpectedEof] {
        assert!(is_damage(&fail(kind)));
    }
    for kind in [
        ErrorKind::NotFound,
        ErrorKind::PermissionDenied,
        ErrorKind::AlreadyExists,
        ErrorKind::WouldBlock,
        ErrorKind::Interrupted,
        ErrorKind::Unsupported,
        ErrorKind::Other,
        ErrorKind::Foreign(3),
    ] {
        assert!(!is_damage(&fail(kind)));
    }
}

#[test]
fn the_first_error_is_kept() {
    let mut error = None;
    record(Ok(()), &mut error);
    assert!(error.is_none());
    record(Err(fail(ErrorKind::NotFound)), &mut error);
    record(Err(fail(ErrorKind::Other)), &mut error);
    record(Ok(()), &mut error);
    assert_eq!(error.unwrap().kind, ErrorKind::NotFound);

    let err = named("dir/a", fail(ErrorKind::WouldBlock));
    assert_eq!((err.kind, err.message.as_str()), (ErrorKind::WouldBlock, "dir/a: no luck"));
    let copy = err.duplicate();
    assert_eq!((copy.kind, copy.message), (err.kind, err.message));
    assert_eq!(invalid("x".to_string()).kind, ErrorKind::InvalidData);
}

#[test]
fn deflate_streams_inflate_as_far_as_they_go() {
    let plain = b"inflate inflate inflate".repeat(50);
    let stream = deflated(&plain);
    assert_eq!(inflate_all(&stream), (plain.clone(), StreamEnd::Complete));
    assert_eq!(inflate(&stream, 10), (plain[..10].to_vec(), StreamEnd::Complete));
    assert_eq!(inflate(&stream, plain.len() + 1), (plain.clone(), StreamEnd::Complete));

    let (front, end) = inflate_all(&stream[..stream.len() / 2]);
    assert_eq!(end, StreamEnd::Incomplete);
    assert!(plain.starts_with(&front) && front.len() < plain.len());
    assert_eq!(inflate_all(&[0xFF; 8]).1, StreamEnd::Corrupt);
}

#[test]
fn stored_chunks_read_back_in_every_format() {
    let text = b"squeeze me ".repeat(90);
    for format in [CompressionFormat::Raw, CompressionFormat::Deflate, CompressionFormat::Zstd] {
        for data in [text.clone(), random(700), vec![0], Vec::new()] {
            let content = encode_chunk(&data, format).unwrap();
            assert!(content.len() <= data.len() + 1);
            for algorithm in [HashAlgorithm::Blake2b256, HashAlgorithm::Blake3] {
                let hash = algorithm.hash(&data);
                assert_eq!(read_chunk(algorithm, &hash, &content).unwrap(), data);
                assert_eq!(read_chunk_unverified(&A, &content).unwrap(), data);
            }
        }
        let content = encode_chunk(&text, format).unwrap();
        assert_eq!(content[0], format.encode());
    }
    assert_eq!(encode_chunk(&text, CompressionFormat::Deflate).unwrap()[1..], deflated(&text));
    let err = encode_chunk(&text, CompressionFormat::Brotli).unwrap_err();
    assert_eq!(err.kind, ErrorKind::Unsupported);
    assert_eq!(err.message, "this build was made without brotli");
}

#[test]
fn a_chunk_is_stored_raw_unless_it_shrinks() {
    let data = [7, 7, 7, 7];
    let stored = |compressed: &[u8]| frame_chunk(&data, CompressionFormat::Zstd, compressed.to_vec());
    assert_eq!(stored(&[1, 2, 3]), [4, 1, 2, 3]);
    assert_eq!(stored(&[1, 2, 3, 4]), [0, 7, 7, 7, 7]);
    assert_eq!(stored(&[1, 2, 3, 4, 5]), [0, 7, 7, 7, 7]);
}

#[test]
fn a_zstd_chunk_without_a_size_is_read_as_a_stream() {
    let data = b"stream stream stream ".repeat(40);
    let mut encoder = zstd::stream::write::Encoder::new(Vec::new(), 3).unwrap();
    encoder.write_all(&data).unwrap();
    let mut content = vec![CompressionFormat::Zstd.encode()];
    content.extend(encoder.finish().unwrap());
    let hash = HashAlgorithm::Blake3.hash(&data);
    assert_eq!(read_chunk(HashAlgorithm::Blake3, &hash, &content).unwrap(), data);

    assert_eq!(trusted_size(None), None);
    assert_eq!(trusted_size(Some(0)), Some(0));
    assert_eq!(trusted_size(Some(MAX_CHUNK_SIZE as u64)), Some(MAX_CHUNK_SIZE));
    assert_eq!(trusted_size(Some(MAX_CHUNK_SIZE as u64 + 1)), None);
}

#[test]
fn damaged_chunks_are_told() {
    let name = hex(&A);
    let read = |content: &[u8]| read_chunk(HashAlgorithm::Blake3, &A, content).unwrap_err();
    let err = read(&[]);
    assert_eq!(err.kind, ErrorKind::InvalidData);
    assert_eq!(err.message, format!("chunk {name} is corrupted"));
    assert_eq!(read(&[0, 1, 2]).message, format!("chunk {name} is corrupted"));
    assert_eq!(read(&[9, 1]).message, "invalid compression format");
    assert_eq!(read(&[3, 1]).kind, ErrorKind::Unsupported);
    let cut = deflated(&random(300));
    let err = read(&[&[2], &cut[..20]].concat());
    assert_eq!(err.kind, ErrorKind::InvalidData);
    assert_eq!(err.message, format!("chunk {name} is corrupted: incomplete deflate stream"));
    let err = read(&[2, 0xFF, 0xFF]);
    assert_eq!(err.message, format!("chunk {name} is corrupted: corrupt deflate stream"));
    let err = read(&[4, 1, 2, 3]);
    assert_eq!(err.kind, ErrorKind::InvalidData);
    assert!(err.message.starts_with(&format!("chunk {name} is corrupted: ")));
    let err = settle_chunk(&A, Err("odd".to_string())).unwrap_err();
    assert_eq!(err.message, format!("chunk {name} is corrupted: odd"));
    assert_eq!(settle_chunk(&A, Ok(vec![5])).unwrap(), [5]);
}

#[test]
fn sizes_follow_the_average() {
    let sizes = |chunk_size, count, len| {
        let sizes = cdc_parameters(chunk_size, count, len);
        (sizes.min, sizes.avg, sizes.max)
    };
    assert_eq!(sizes(4096, 0, 1 << 40), (1024, 4096, 16_384));
    assert_eq!(sizes(0, 0, 0), (64, 256, 1024));
    assert_eq!(sizes(usize::MAX, 0, 0), (1_048_576, 4_194_304, 16_777_216));
    // 10 000 bytes in at most two pieces: 4096 takes three, 8192 takes two.
    assert_eq!(sizes(4096, 2, 10_000), (2048, 8192, 32_768));
    assert_eq!(sizes(4096, 2, 8192), (1024, 4096, 16_384));
    assert_eq!(sizes(4096, 2, 8193), (2048, 8192, 32_768));
    // No average is large enough, so the largest is taken.
    assert_eq!(sizes(4096, 1, u64::MAX), (1_048_576, 4_194_304, 16_777_216));
}

#[test]
fn cutting_covers_the_data() {
    let sizes = CutSizes { min: 64, avg: 256, max: 1024 };
    let data = random(20_000);
    let pieces = split(&data, sizes);
    assert!(pieces.len() > 1);
    let mut end = 0;
    for (offset, length) in &pieces {
        assert_eq!(*offset, end);
        assert!(*length > 0 && *length <= 1024);
        end += length;
    }
    assert_eq!(end, data.len());
    let expected: Vec<_> = fastcdc::v2020::FastCDC::new(&data, 64, 256, 1024)
        .map(|chunk| (chunk.offset, chunk.length))
        .collect();
    assert_eq!(pieces, expected);
    assert!(split(&[], sizes).is_empty());
    assert_eq!(ranges(&[0; 6], vec![1, 2, 3]), [(0, 1), (1, 2), (3, 3)]);
}

#[test]
fn files_larger_than_a_chunk_are_cut_as_they_are_read() {
    let sizes = CutSizes { min: 64, avg: 256, max: 1024 };
    assert!(reads_whole(sizes, 1024));
    assert!(!reads_whole(sizes, 1025));
    let data = random(1024);
    assert!(matches!(cut_file(sizes, 1024, &data), FileCuts::Pieces(pieces) if !pieces.is_empty()));
    assert!(matches!(cut_file(sizes, 1025, &[]), FileCuts::Stream(same) if same == sizes));
    // It grew while it was read.
    assert!(matches!(cut_file(sizes, 10, &random(1025)), FileCuts::Stream(_)));
}

#[test]
fn the_table_is_keyed_by_leading_bytes() {
    let mut hasher = PrefixHasher::default();
    hasher.mix(&[1, 2, 3, 4, 5, 6, 7, 8, 9]);
    assert_eq!(hasher.0, 0x0807_0605_0403_0201);
    hasher.write(&[0xFF]);
    assert_eq!(hasher.finish(), 0x0706_0504_0302_01F7);
}

#[test]
fn counts_go_up_and_down() {
    let mut index = ChunkIndex::new(4096, 7, HashAlgorithm::Blake3);
    assert!(index.is_empty() && index.len() == 0 && !index.contains(&A));
    assert_eq!(index.references(&A), 0);
    assert_eq!(index.reference(&A), 1);
    assert_eq!(index.reference(&A), 2);
    assert_eq!(index.reference(&B), 1);
    assert_eq!((index.len(), index.is_empty()), (2, false));
    assert_eq!(sorted(index.iter()), [(A, 2), (B, 1)]);
    assert_eq!(index.dereference(&A), 1);
    assert_eq!(index.dereference(&B), 0);
    assert_eq!(index.dereference(&B), 0);
    assert_eq!(index.dereference(&C), 0);
    assert!(index.contains(&B) && !index.contains(&C));
    assert_eq!(index.unreferenced(), [B]);
    index.remove(&B);
    index.remove(&C);
    assert_eq!(index.iter(), [(A, 1)]);
    index.set(&A, 1 << 62);
    assert_eq!(index.reference(&A), 1 << 62);
}

#[test]
fn saved_indexes_load() {
    for counts in [vec![], vec![(A, 1)], vec![(A, 300), (B, 0), (C, 1 << 62)]] {
        let index = index_of(&counts);
        let bytes = index.save();
        let loaded = ChunkIndex::load(&bytes).unwrap();
        assert_eq!(sorted(loaded.iter()), counts);
        assert_eq!((loaded.chunk_size, loaded.max_chunk_count), (4096, 7));
        assert_eq!(loaded.hash_algorithm, HashAlgorithm::Blake3);
        let header = ChunkIndex::load_header(&bytes).unwrap();
        assert_eq!((header.version, header.chunk_size, header.max_chunk_count), (4, 4096, 7));
    }
    let index = index_of(&[(A, 300)]);
    let mut expected = b"DDUPIDX4".to_vec();
    expected.extend([0, 16, 0, 0, 7, 0, 0, 0, 1, 1, 0, 0, 0, 0, 0, 0, 0]);
    expected.extend(A);
    expected.extend([0xAC, 0x02]);
    let checksum = HashAlgorithm::Blake3.hash(&expected);
    expected.extend(checksum);
    assert_eq!(index.save(), expected);
    assert_eq!(index.encode_entries(&vec![(A, 300)]), expected);
    assert_eq!(read_hash(&expected, 25), A);
}

#[test]
fn damaged_indexes_are_told() {
    let message = |bytes: &[u8]| {
        let err = ChunkIndex::load(bytes).err().unwrap();
        (err.kind, err.message)
    };
    let saved = index_of(&[(A, 2)]).save();
    let resealed = |mut body: Vec<u8>| {
        let checksum = HashAlgorithm::Blake3.hash(&body);
        body.extend(checksum);
        body
    };
    let body = &saved[..saved.len() - 32];

    let mut flipped = saved.clone();
    flipped[30] ^= 1;
    let wrong = (ErrorKind::InvalidData, "index does not match its checksum".to_string());
    assert_eq!(message(&flipped), wrong);
    assert_eq!(message(&saved[..26]).1, "index is cut short");
    assert_eq!(message(&saved[..20]).0, ErrorKind::UnexpectedEof);
    let long = resealed([body, &[0]].concat());
    assert_eq!(message(&long), (ErrorKind::InvalidData, "index has trailing data".to_string()));
    let short = resealed(body[..body.len() - 1].to_vec());
    assert_eq!(
        message(&short),
        (ErrorKind::UnexpectedEof, "failed to fill whole buffer".to_string())
    );
    let impossible = index_of(&[(A, (1 << 62) + 1)]).save();
    assert_eq!(
        message(&impossible).1,
        format!("chunk {} has an impossible reference count", hex(&A))
    );
    let mut odd = body.to_vec();
    odd[16] = 9;
    assert_eq!(message(&resealed(odd)).1, "invalid hash algorithm");
    assert_eq!(message(&[0xFF; 40]).0, ErrorKind::InvalidInput);
    assert_eq!(message(b"").0, ErrorKind::UnexpectedEof);
    assert_eq!(open_index(&saved).unwrap().count, 1);
}

fn format_1(deleted: &[u8], count: u64, records: &[(ChunkHash, u8, u8)]) -> Vec<u8> {
    let mut plain = (deleted.len() as u64).to_le_bytes().to_vec();
    plain.extend(2048u32.to_le_bytes());
    plain.extend(5u32.to_le_bytes());
    plain.extend(count.to_le_bytes());
    plain.extend(9u64.to_le_bytes());
    plain.extend(deleted);
    for (hash, id, references) in records {
        plain.extend(hash);
        plain.extend([*id, *references]);
    }
    deflated(&plain)
}

#[test]
fn format_1_indexes_load_with_their_ids() {
    let bytes = format_1(&[4, 5], 2, &[(A, 1, 3), (B, 2, 1)]);
    let header = ChunkIndex::load_header(&bytes).unwrap();
    assert_eq!((header.version, header.chunk_size, header.max_chunk_count), (1, 2048, 5));
    assert_eq!(header.hash_algorithm, HashAlgorithm::Blake2b256);

    let (index, ids) = ChunkIndex::load_v1(&bytes).unwrap();
    assert_eq!(sorted(index.iter()), [(A, 3), (B, 1)]);
    assert_eq!(ids, HashMap::from([(1, A), (2, B)]));
    let (salvaged, salvaged_ids) = ChunkIndex::salvage_v1(&bytes).unwrap();
    assert_eq!(sorted(salvaged.iter()), sorted(index.iter()));
    assert_eq!(salvaged_ids, ids);

    let err = ChunkIndex::load(&bytes).err().unwrap();
    assert_eq!(err.kind, ErrorKind::Unsupported);
    assert_eq!(err.message, "index uses format 1; the repository has not been migrated");
    let saved = index_of(&[]).save();
    assert_eq!(ChunkIndex::load_v1(&saved).err().unwrap().message, "index is not format 1");
    assert_eq!(ChunkIndex::salvage_v1(&saved).err().unwrap().message, "index is not format 1");
}

#[test]
fn a_format_1_index_short_of_its_records_is_only_salvaged() {
    let bytes = format_1(&[], 3, &[(A, 1, 3), (B, 2, 1)]);
    let err = ChunkIndex::load_v1(&bytes).err().unwrap();
    assert_eq!(err.kind, ErrorKind::InvalidData);
    assert_eq!(err.message, "format 1 index holds 2 of the 3 chunks it was written with");
    let (_, ids) = ChunkIndex::salvage_v1(&bytes).unwrap();
    assert_eq!(ids, HashMap::from([(1, A), (2, B)]));
}

#[test]
fn recounting_counts_every_occurrence() {
    let archive = |hashes: &[ChunkHash]| {
        vec![Entry::File(Box::new(file("f", 1, Ok(hashes.concat()))))]
    };
    let archives = vec![archive(&[A, B, A]), archive(&[B])];
    let rebuild = |stored: &[ChunkHash], archives: &Vec<Vec<Entry>>| {
        let mut progress = Vec::new();
        let stored = stored.to_vec();
        let index = ChunkIndex::rebuild(
            4096,
            7,
            HashAlgorithm::Blake3,
            &stored,
            archives,
            &mut progress,
        );
        (index, progress)
    };
    let (index, progress) = rebuild(&[C, A], &archives);
    assert_eq!(sorted(index.unwrap().iter()), [(A, 2), (B, 2), (C, 0)]);
    assert_eq!(progress, [(A, 1), (B, 1), (A, 2), (B, 2)]);

    let broken = vec![archive(&[A]), vec![Entry::File(Box::new(file("f", 1, Ok(vec![1]))))]];
    let (index, progress) = rebuild(&[], &broken);
    assert_eq!(index.err().unwrap().message, "entry f has a malformed chunk list");
    assert_eq!(progress, [(A, 1)]);

    let mut index = index_of(&[(A, 1)]);
    let mut progress = vec![(C, 9)];
    index.count_references(&archive(&[A, B, A]), &mut progress).unwrap();
    assert_eq!(progress, [(C, 9), (A, 2), (B, 1), (A, 3)]);
    assert_eq!(index.reference_all(&vec![B]), [(B, 2)]);
    index.zero_all(&vec![A, C]);
    assert_eq!(sorted(index.iter()), [(A, 0), (B, 2), (C, 0)]);
}

#[test]
fn what_stands_before_an_unreadable_list_is_counted() {
    let entries = vec![
        Entry::File(Box::new(file("f", 1, Ok(A.to_vec())))),
        Entry::Directory(Box::new(DirectoryEntry {
            name: "d".to_string(),
            mode: 0o755,
            owner: (0, 0),
            mtime: EPOCH,
            entries: vec![
                Entry::File(Box::new(file("g", 1, Ok(B.to_vec())))),
                Entry::File(Box::new(file("h", 1, Ok(vec![1])))),
                Entry::File(Box::new(file("i", 1, Ok(C.to_vec())))),
            ],
        })),
        Entry::File(Box::new(file("j", 1, Ok(C.to_vec())))),
    ];
    let mut index = index_of(&[(A, 4)]);
    let mut progress = Vec::new();
    let err = index.count_references(&entries, &mut progress).unwrap_err();
    assert_eq!(err.message, "entry h has a malformed chunk list");
    assert_eq!(progress, [(A, 5), (B, 1)]);
    assert_eq!(sorted(index.iter()), [(A, 5), (B, 1)]);

    let mut hashes = vec![C];
    assert!(collect_hashes(&entries, &mut hashes).is_err());
    assert_eq!(hashes, [C, A, B]);
}

#[test]
fn releasing_undoes_counting_and_drops_a_chunk_once() {
    let mut index = index_of(&[(A, 1), (B, 1)]);
    index.reference_all(&vec![A, C, C]);
    assert_eq!(index.release(&vec![A, C, C]), [(A, false), (C, false), (C, true)]);
    assert_eq!(sorted(index.iter()), [(A, 1), (B, 1)]);
    assert_eq!(index.release(&vec![B, A]), [(B, true), (A, true)]);
    assert!(index.is_empty());
}

#[test]
fn settling_counts_pending_chunks_from_live_ones() {
    let mut index = index_of(&[(A, 5), (B, 1), (C, 4)]);
    let mut unused = index.settle(&vec![A, B, A], &vec![A, C, A]);
    unused.sort();
    assert_eq!(unused, [B]);
    assert_eq!(sorted(index.iter()), [(A, 2), (C, 4)]);
}

#[test]
fn sweeping_takes_what_nothing_refers_to() {
    let mut index = index_of(&[(A, 0), (B, 1)]);
    let mut swept = index.sweep(&vec![A, B, C]);
    swept.sort();
    assert_eq!(swept, [A, C]);
    assert_eq!(index.iter(), [(B, 1)]);
}

#[test]
fn detection_passes_over_damage() {
    let data = b"tell me";
    let whole = encode_chunk(data, CompressionFormat::Deflate).unwrap();
    for algorithm in [HashAlgorithm::Blake2b256, HashAlgorithm::Blake3] {
        let chunks = vec![
            (A, Ok(Vec::new())),
            (B, Ok(whole.clone())),
            (algorithm.hash(data), Ok(whole.clone())),
        ];
        assert_eq!(detect_hash_algorithm(&chunks).unwrap(), Some(algorithm));
    }
    assert_eq!(detect_hash_algorithm(&vec![]).unwrap(), None);

    let err = detect_hash_algorithm(&vec![(A, Ok(whole.clone())), (B, Ok(vec![9]))]).unwrap_err();
    assert_eq!(err.kind, ErrorKind::InvalidData);
    assert_eq!(
        err.message,
        format!("chunk {} does not match its content under any hash algorithm", hex(&A))
    );
    let denied = vec![
        (A, Err(fail(ErrorKind::PermissionDenied))),
        (HashAlgorithm::Blake3.hash(data), Ok(whole)),
    ];
    assert_eq!(detect_hash_algorithm(&denied).unwrap_err().kind, ErrorKind::PermissionDenied);
    assert_eq!(Detection::new().finish().unwrap(), None);

    let mut detection = Detection::new();
    let whole = encode_chunk(data, CompressionFormat::Raw).unwrap();
    assert_eq!(detection.look(&A, Ok(vec![9])).unwrap(), None);
    let damage = detection.damage.as_ref().unwrap().message.clone();
    let hash = HashAlgorithm::Blake3.hash(data);
    assert_eq!(detection.look(&hash, Ok(whole)).unwrap(), Some(HashAlgorithm::Blake3));
    assert!(detection.look(&B, Err(fail(ErrorKind::PermissionDenied))).is_err());
    assert_eq!(detection.finish().unwrap_err().message, damage);
}

#[test]
fn chunk_lists_are_checked() {
    assert_eq!(entry_hashes(&file("f", 9, Ok([A, B].concat()))).unwrap(), [A, B]);
    assert!(entry_hashes(&file("f", 0, Ok(Vec::new()))).unwrap().is_empty());
    for (size, body) in [(4, Vec::new()), (0, A.to_vec()), (4, vec![0; 33])] {
        let err = entry_hashes(&file("f", size, Ok(body))).unwrap_err();
        assert_eq!(err.kind, ErrorKind::InvalidData);
        assert_eq!(err.message, "entry f has a malformed chunk list");
    }
    let err = entry_body(&file("f", 1, Err(fail(ErrorKind::Other)))).unwrap_err();
    assert_eq!(err.kind, ErrorKind::InvalidData);
    assert_eq!(err.message, "hash list of f is corrupted: no luck");
    let err = entry_body(&file("f", 1, Err(fail(ErrorKind::Unsupported)))).unwrap_err();
    assert_eq!((err.kind, err.message.as_str()), (ErrorKind::Unsupported, "no luck"));
}

#[test]
fn chunk_ids_resolve() {
    let ids = HashMap::from([(1, A), (300, B)]);
    let entry = file("f", 3, Ok(vec![0xAC, 0x02, 1, 1]));
    assert_eq!(entry_hashes_v1(&entry, &ids).unwrap(), [B, A, A]);
    let err = entry_hashes_v1(&file("f", 3, Ok(vec![7])), &ids).unwrap_err();
    assert_eq!(err.kind, ErrorKind::InvalidData);
    assert_eq!(err.message, "entry f references unknown chunk id 7");
    let err = entry_hashes_v1(&file("f", 3, Ok(vec![1, 0x80])), &ids).unwrap_err();
    assert_eq!(err.kind, ErrorKind::UnexpectedEof);
}

#[test]
fn migration_keeps_chunks_and_everything_else() {
    let ids = HashMap::from([(1, A), (2, B)]);
    let link = SymlinkEntry {
        name: "l".to_string(),
        mode: 0o777,
        owner: (3, 4),
        mtime: EPOCH,
        target: "f".to_string(),
        target_dir: true,
    };
    let dir = DirectoryEntry {
        name: "d".to_string(),
        mode: 0o750,
        owner: (5, 6),
        mtime: Timestamp { seconds: 8, nanos: 9 },
        entries: vec![Entry::File(Box::new(file("f", 10, Ok(vec![2, 1]))))],
    };
    let old = vec![Entry::Symlink(Box::new(link)), Entry::Directory(Box::new(dir))];
    let new = migrate_v1_entries(&old, &ids).unwrap();

    let mut hashes = vec![C];
    collect_hashes(&new, &mut hashes).unwrap();
    assert_eq!(hashes, [C, B, A]);
    let Entry::Symlink(link) = &new[0] else { panic!("not a link") };
    assert_eq!((link.target.as_str(), link.target_dir, link.owner), ("f", true, (3, 4)));
    let Entry::Directory(dir) = &new[1] else { panic!("not a directory") };
    assert_eq!((dir.mode, dir.owner, dir.mtime.seconds), (0o750, (5, 6), 8));
    let Entry::File(file) = &dir.entries[0] else { panic!("not a file") };
    assert_eq!((file.size_real, file.owner, file.mode), (10, (1, 2), 0o644));
    assert_eq!(file.body.as_ref().unwrap(), &flatten(&vec![B, A]));
    assert!(migrate_v1_entries(&old, &HashMap::new()).is_err());
}
