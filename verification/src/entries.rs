//! Archive entries: files with the chunks that make them up, directories and links.
use crate::chunks::hash::ChunkHash;
use crate::chunks::header;
use crate::chunks::header::read_hash;
use crate::error;
use crate::error::{invalid, Error, ErrorKind};
use crate::text;
use crate::varint;
use crate::varint::{decode, StreamEnd};
use std::collections::HashMap;
use vstd::prelude::*;

verus! {

/// A point in time: whole seconds since the epoch, and nanoseconds.
#[derive(Debug, Clone, Copy, PartialEq, Eq, Structural)]
pub struct Timestamp {
    pub seconds: i64,
    pub nanos: u32,
}

/// A file: its name and metadata, and what reading its chunk list gave.
#[derive(Debug)]
pub struct FileEntry {
    pub name: String,
    pub mode: u32,
    pub owner: (u32, u32),
    pub mtime: Timestamp,
    /// The size of the file's content.
    pub size_real: u64,
    /// The body of the entry: the hashes of the file's chunks, or in format 1 their ids.
    pub body: Result<Vec<u8>, Error>,
}

#[derive(Debug)]
pub struct DirectoryEntry {
    pub name: String,
    pub mode: u32,
    pub owner: (u32, u32),
    pub mtime: Timestamp,
    pub entries: Vec<Entry>,
}

#[derive(Debug)]
pub struct SymlinkEntry {
    pub name: String,
    pub mode: u32,
    pub owner: (u32, u32),
    pub mtime: Timestamp,
    pub target: String,
    /// Whether the target is a directory.
    pub target_dir: bool,
}

#[derive(Debug)]
pub enum Entry {
    File(Box<FileEntry>),
    Directory(Box<DirectoryEntry>),
    Symlink(Box<SymlinkEntry>),
}

/// Hashes, or an error, by value.
pub open spec fn hashes_model(result: Result<Vec<ChunkHash>, Error>) -> Result<
    Seq<ChunkHash>,
    error::ErrorModel,
> {
    match result {
        Ok(hashes) => Ok(hashes@),
        Err(err) => Err(err@),
    }
}

/// What the body of an entry is taken for. An error of a decoder is damage; unsupported
/// compression and errors of the environment keep their kinds.
pub open spec fn body_of(entry: FileEntry) -> Result<Seq<u8>, error::ErrorModel> {
    match entry.body {
        Ok(body) => Ok(body@),
        Err(err) => if err@.kind == ErrorKind::Other {
            Err(
                error::invalid_model(
                    "hash list of "@ + entry.name@ + " is corrupted: "@ + err@.message,
                ),
            )
        } else {
            Err(err@)
        },
    }
}

/// The hashes that a body lists.
pub open spec fn hashes_in(body: Seq<u8>) -> Seq<ChunkHash> {
    Seq::new(body.len() / 32, |i: int| header::hash_at(body, 32 * i))
}

/// The chunks of a file. A list that is not made of whole hashes is damage, and so is one that is
/// empty though the file is not: it would restore as an empty file.
pub open spec fn file_hashes(entry: FileEntry) -> Result<Seq<ChunkHash>, error::ErrorModel> {
    match body_of(entry) {
        Ok(body) => if body.len() % 32 != 0 || (body.len() == 0) != (entry.size_real == 0) {
            Err(error::invalid_model("entry "@ + entry.name@ + " has a malformed chunk list"@))
        } else {
            Ok(hashes_in(body))
        },
        Err(err) => Err(err),
    }
}

/// The hashes that the ids from `pos` on stand for.
pub open spec fn hashes_by_id(
    name: Seq<char>,
    body: Seq<u8>,
    pos: int,
    ids: Map<u64, ChunkHash>,
) -> Result<Seq<ChunkHash>, error::ErrorModel>
    decreases body.len() - pos,
{
    if pos < 0 || pos >= body.len() {
        Ok(Seq::empty())
    } else {
        match varint::varint_at(body, StreamEnd::Complete, pos) {
            Ok((id, next)) => if !ids.contains_key(id as u64) {
                Err(
                    error::invalid_model(
                        "entry "@ + name + " references unknown chunk id "@ + text::decimal_text(id),
                    ),
                )
            } else {
                proof {
                    varint::varint_at_moves_on(body, StreamEnd::Complete, pos);
                }
                match hashes_by_id(name, body, next, ids) {
                    Ok(hashes) => Ok(seq![ids[id as u64]] + hashes),
                    Err(err) => Err(err),
                }
            },
            Err(err) => Err(err),
        }
    }
}

/// The chunks of a format 1 file, which lists ids.
pub open spec fn file_hashes_v1(entry: FileEntry, ids: Map<u64, ChunkHash>) -> Result<
    Seq<ChunkHash>,
    error::ErrorModel,
> {
    match body_of(entry) {
        Ok(body) => hashes_by_id(entry.name@, body, 0, ids),
        Err(err) => Err(err),
    }
}

/// The chunks that an entry and everything in it is made of, in order.
pub open spec fn entry_tree_hashes(entry: Entry) -> Result<Seq<ChunkHash>, error::ErrorModel>
    decreases entry,
{
    match entry {
        Entry::File(file) => file_hashes(*file),
        Entry::Directory(dir) => tree_hashes(dir.entries@),
        Entry::Symlink(_) => Ok(Seq::empty()),
    }
}

/// The chunks that entries are made of, in order. The first entry that cannot be read decides.
pub open spec fn tree_hashes(entries: Seq<Entry>) -> Result<Seq<ChunkHash>, error::ErrorModel>
    decreases entries,
{
    if entries.len() == 0 {
        Ok(Seq::empty())
    } else {
        match tree_hashes(entries.drop_last()) {
            Ok(hashes) => match entry_tree_hashes(entries.last()) {
                Ok(more) => Ok(hashes + more),
                Err(err) => Err(err),
            },
            Err(err) => Err(err),
        }
    }
}

/// The chunks that are listed in an entry in front of the first list that cannot be read.
pub open spec fn entry_front_hashes(entry: Entry) -> Seq<ChunkHash>
    decreases entry,
{
    match entry {
        Entry::File(file) => match file_hashes(*file) {
            Ok(hashes) => hashes,
            Err(_) => Seq::empty(),
        },
        Entry::Directory(dir) => front_hashes(dir.entries@),
        Entry::Symlink(_) => Seq::empty(),
    }
}

/// The chunks that are listed in entries in front of the first list that cannot be read. All of
/// them, where every list can be read.
pub open spec fn front_hashes(entries: Seq<Entry>) -> Seq<ChunkHash>
    decreases entries,
{
    if entries.len() == 0 {
        Seq::empty()
    } else if tree_hashes(entries.drop_last()) is Err {
        front_hashes(entries.drop_last())
    } else {
        front_hashes(entries.drop_last()) + entry_front_hashes(entries.last())
    }
}

/// Where every list can be read, none is left out.
pub proof fn front_is_all(entries: Seq<Entry>)
    requires
        tree_hashes(entries) is Ok,
    ensures
        front_hashes(entries) == tree_hashes(entries)->Ok_0,
    decreases entries,
{
    reveal_with_fuel(tree_hashes, 2);
    reveal_with_fuel(entry_tree_hashes, 2);
    reveal_with_fuel(front_hashes, 2);
    reveal_with_fuel(entry_front_hashes, 2);
    if entries.len() > 0 {
        front_is_all(entries.drop_last());
        if let Entry::Directory(dir) = entries.last() {
            front_is_all(dir.entries@);
        }
    }
}

/// Entries behind one that cannot be read add nothing.
proof fn front_of_prefix(entries: Seq<Entry>, n: int)
    requires
        0 <= n <= entries.len(),
        tree_hashes(entries.take(n)) is Err,
    ensures
        front_hashes(entries) == front_hashes(entries.take(n)),
    decreases entries.len() - n,
{
    if n < entries.len() {
        assert(entries.take(n + 1).drop_last() =~= entries.take(n));
        front_of_prefix(entries, n + 1);
    } else {
        assert(entries.take(n) =~= entries);
    }
}

/// The body of an entry.
pub fn entry_body(entry: &FileEntry) -> (body: Result<Vec<u8>, Error>)
    ensures
        crate::chunks::chunk::bytes_model(body) == body_of(*entry),
{
    match &entry.body {
        Ok(body) => Ok(vstd::slice::slice_to_vec(body.as_slice())),
        Err(err) => if err.kind == ErrorKind::Other {
            Err(
                invalid(
                    text::join4(
                        "hash list of ",
                        entry.name.as_str(),
                        " is corrupted: ",
                        err.message.as_str(),
                    ),
                ),
            )
        } else {
            Err(err.duplicate())
        },
    }
}

/// Chunk hashes of a repository file entry, archive format 2 and later.
pub fn entry_hashes(entry: &FileEntry) -> (hashes: Result<Vec<ChunkHash>, Error>)
    ensures
        hashes_model(hashes) == file_hashes(*entry),
        hashes is Ok ==> entry.body is Ok && entry.body->Ok_0@.len() == 32 * hashes->Ok_0@.len(),
        hashes is Ok ==> forall|i: int|
            0 <= i < hashes->Ok_0@.len() ==> (#[trigger] hashes->Ok_0@[i])@
                == entry.body->Ok_0@.subrange(32 * i, 32 * i + 32),
        entry.body is Ok ==> (hashes is Ok <==> entry.body->Ok_0@.len() % 32 == 0 && (
        entry.body->Ok_0@.len() == 0 <==> entry.size_real == 0)),
{
    let body = match entry_body(entry) {
        Ok(body) => body,
        Err(err) => return Err(err),
    };
    if body.len() % 32 != 0 || (body.len() == 0) != (entry.size_real == 0) {
        return Err(
            invalid(text::join3("entry ", entry.name.as_str(), " has a malformed chunk list")),
        );
    }
    let mut hashes: Vec<ChunkHash> = Vec::new();
    let mut pos: usize = 0;
    while pos < body.len()
        invariant
            body@.len() % 32 == 0,
            pos % 32 == 0,
            pos <= body@.len(),
            hashes@ == hashes_in(body@).take(pos as int / 32),
            forall|i: int|
                0 <= i < hashes@.len() ==> (#[trigger] hashes@[i])@ == body@.subrange(
                    32 * i,
                    32 * i + 32,
                ),
        decreases body@.len() - pos,
    {
        let hash = read_hash(body.as_slice(), pos);
        hashes.push(hash);
        assert(hashes@ =~= hashes_in(body@).take(pos as int / 32 + 1));
        pos = pos + 32;
    }
    assert(hashes@ =~= hashes_in(body@));
    Ok(hashes)
}

/// Chunk hashes of a format 1 entry, which lists chunk ids resolved through `ids`.
#[verifier::loop_isolation(false)]
pub fn entry_hashes_v1(entry: &FileEntry, ids: &HashMap<u64, ChunkHash>) -> (hashes: Result<
    Vec<ChunkHash>,
    Error,
>)
    ensures
        hashes_model(hashes) == file_hashes_v1(*entry, ids@),
        forall|list: Seq<u64>|
            entry.body is Ok && entry.body->Ok_0@ == #[trigger] ids_bytes(list) && (forall|i: int|
                0 <= i < list.len() ==> ids@.contains_key(#[trigger] list[i])) ==> hashes is Ok
                && hashes->Ok_0@ == Seq::new(list.len(), |i: int| ids@[list[i]]),
{
    proof {
        assert forall|list: Seq<u64>|
            entry.body is Ok && entry.body->Ok_0@ == #[trigger] ids_bytes(list) && (forall|i: int|
                0 <= i < list.len() ==> ids@.contains_key(#[trigger] list[i])) implies
            file_hashes_v1(*entry, ids@) == Ok::<_, error::ErrorModel>(
                Seq::new(list.len(), |i: int| ids@[list[i]]),
            ) by {
            listed_ids_are_resolved(*entry, list, ids@);
        }
    }
    let body = match entry_body(entry) {
        Ok(body) => body,
        Err(err) => return Err(err),
    };
    let mut hashes: Vec<ChunkHash> = Vec::new();
    let mut pos: usize = 0;
    assert(file_hashes_v1(*entry, ids@) == hashes_by_id(entry.name@, body@, 0, ids@));
    while pos < body.len()
        invariant
            pos <= body@.len(),
            file_hashes_v1(*entry, ids@) == match hashes_by_id(
                entry.name@,
                body@,
                pos as int,
                ids@,
            ) {
                Ok(rest) => Ok(hashes@ + rest),
                Err(err) => Err(err),
            },
        decreases body@.len() - pos,
    {
        match decode(body.as_slice(), StreamEnd::Complete, pos) {
            Ok((id, next)) => match ids.get(&id) {
                Some(hash) => {
                    let ghost before = hashes@;
                    hashes.push(*hash);
                    proof {
                        if let Ok(rest) = hashes_by_id(entry.name@, body@, next as int, ids@) {
                            assert(before + (seq![*hash] + rest) =~= hashes@ + rest);
                        }
                    }
                    pos = next;
                },
                None => {
                    let number = text::decimal(id);
                    return Err(
                        invalid(
                            text::join4(
                                "entry ",
                                entry.name.as_str(),
                                " references unknown chunk id ",
                                number.as_str(),
                            ),
                        ),
                    );
                },
            },
            Err(err) => {
                return Err(err);
            },
        }
    }
    assert(hashes@ + Seq::<ChunkHash>::empty() =~= hashes@);
    Ok(hashes)
}

/// Appends the chunks that entries are made of to `hashes`, as far as their lists can be read.
pub fn collect_hashes(entries: &Vec<Entry>, hashes: &mut Vec<ChunkHash>) -> (result: Result<
    (),
    Error,
>)
    ensures
        final(hashes)@ == old(hashes)@ + front_hashes(entries@),
        match (result, tree_hashes(entries@)) {
            (Ok(()), Ok(more)) => final(hashes)@ == old(hashes)@ + more,
            (Err(err), Err(err_spec)) => err@ == err_spec,
            _ => false,
        },
        result is Ok ==> forall|hash: ChunkHash| #[trigger]
            final(hashes)@.to_multiset().count(hash) == old(hashes)@.to_multiset().count(hash)
                + uses(files_in(entries@), hash),
    decreases entries,
{
    let mut i: usize = 0;
    proof {
        assert(entries@.take(0) =~= Seq::empty());
        assert(hashes@ + Seq::<ChunkHash>::empty() =~= hashes@);
    }
    while i < entries.len()
        invariant
            i <= entries@.len(),
            tree_hashes(entries@.take(i as int)) is Ok,
            hashes@ == old(hashes)@ + front_hashes(entries@.take(i as int)),
        decreases entries@.len() - i,
    {
        proof {
            reveal_with_fuel(tree_hashes, 2);
            reveal_with_fuel(entry_tree_hashes, 2);
            reveal_with_fuel(front_hashes, 2);
            reveal_with_fuel(entry_front_hashes, 2);
            assert(entries@.take(i + 1).drop_last() =~= entries@.take(i as int));
            assert(entries@.take(i + 1).last() == entries@[i as int]);
        }
        let ghost done = front_hashes(entries@.take(i as int));
        match &entries[i] {
            Entry::File(file) => match entry_hashes(file) {
                Ok(mut more) => {
                    let ghost added = more@;
                    hashes.append(&mut more);
                    assert(hashes@ =~= old(hashes)@ + (done + added));
                },
                Err(err) => {
                    proof {
                        assert(done + Seq::<ChunkHash>::empty() =~= done);
                        error_of_prefix(entries@, i + 1);
                        front_of_prefix(entries@, i + 1);
                    }
                    return Err(err);
                },
            },
            Entry::Directory(dir) => {
                let result = collect_hashes(&dir.entries, hashes);
                assert(hashes@ =~= old(hashes)@ + (done + front_hashes(dir.entries@)));
                if let Err(err) = result {
                    proof {
                        error_of_prefix(entries@, i + 1);
                        front_of_prefix(entries@, i + 1);
                    }
                    return Err(err);
                }
            },
            Entry::Symlink(_) => {
                assert(done + Seq::<ChunkHash>::empty() =~= done);
            },
        }
        i = i + 1;
    }
    proof {
        assert(entries@.take(entries@.len() as int) =~= entries@);
        front_is_all(entries@);
        let more = tree_hashes(entries@)->Ok_0;
        assert forall|hash: ChunkHash| #[trigger]
            hashes@.to_multiset().count(hash) == old(hashes)@.to_multiset().count(hash) + uses(
                files_in(entries@),
                hash,
            ) by {
            vstd::seq_lib::lemma_multiset_commutative(old(hashes)@, more);
            every_use_is_counted(entries@, hash);
        }
    }
    Ok(())
}

/// An error among the first entries is the error of all of them.
proof fn error_of_prefix(entries: Seq<Entry>, n: int)
    requires
        0 <= n <= entries.len(),
        tree_hashes(entries.take(n)) is Err,
    ensures
        tree_hashes(entries) == tree_hashes(entries.take(n)),
    decreases entries.len() - n,
{
    if n < entries.len() {
        assert(entries.take(n + 1).drop_last() =~= entries.take(n));
        error_of_prefix(entries, n + 1);
    } else {
        assert(entries.take(n) =~= entries);
    }
}

/// A list of hashes, 32 bytes each and one after the other, is read as these hashes, all of them
/// and in order, unless it is empty where the file is not or the other way round.
pub proof fn listed_hashes_are_read(file: FileEntry, hashes: Seq<ChunkHash>)
    requires
        file.body is Ok,
        file.body->Ok_0@.len() == 32 * hashes.len(),
        forall|i: int|
            0 <= i < hashes.len() ==> file.body->Ok_0@.subrange(32 * i, 32 * i + 32) == (
            #[trigger] hashes[i])@,
        hashes.len() == 0 <==> file.size_real == 0,
    ensures
        file_hashes(file) == Ok::<_, error::ErrorModel>(hashes),
{
    let body = file.body->Ok_0@;
    assert forall|i: int| 0 <= i < hashes.len() implies hashes_in(body)[i] == hashes[i] by {
        header::hash_of_bytes(hashes[i]);
    }
    assert(hashes_in(body) =~= hashes);
}

/// A list that cannot be read is damage where a decoder gave up on it, and else what its reading
/// failed with. One that is not made of whole hashes, or is empty where the file is not, is damage.
pub proof fn broken_lists_are_told(file: FileEntry)
    ensures
        match file.body {
            Ok(body) => body@.len() % 32 != 0 || (body@.len() == 0) != (file.size_real == 0)
                ==> file_hashes(file) == Err::<Seq<ChunkHash>, _>(
                error::ErrorModel {
                    kind: ErrorKind::InvalidData,
                    message: "entry "@ + file.name@ + " has a malformed chunk list"@,
                },
            ),
            Err(err) => {
                &&& file_hashes(file) is Err
                &&& err.kind != ErrorKind::Other ==> file_hashes(file)->Err_0 == err@
                &&& err.kind == ErrorKind::Other ==> file_hashes(file)->Err_0
                    == (error::ErrorModel {
                    kind: ErrorKind::InvalidData,
                    message: "hash list of "@ + file.name@ + " is corrupted: "@ + err.message@,
                })
            },
        },
{
}

/// What entries are made of, entry by entry: a file adds all of its chunks, a directory all of
/// what is in it, and a link nothing. The first that cannot be read decides.
pub proof fn chunks_add_up(front: Seq<Entry>, last: Entry)
    ensures
        tree_hashes(Seq::empty()) == Ok::<_, error::ErrorModel>(Seq::<ChunkHash>::empty()),
        tree_hashes(front) is Err ==> tree_hashes(front.push(last)) == tree_hashes(front),
        tree_hashes(front) is Ok ==> tree_hashes(front.push(last)) == match match last {
            Entry::File(file) => file_hashes(*file),
            Entry::Directory(dir) => tree_hashes(dir.entries@),
            Entry::Symlink(_) => Ok(Seq::empty()),
        } {
            Ok(more) => Ok(tree_hashes(front)->Ok_0 + more),
            Err(err) => Err(err),
        },
{
    reveal_with_fuel(tree_hashes, 3);
    reveal_with_fuel(entry_tree_hashes, 3);
    assert(front.push(last).drop_last() =~= front);
}

/// What is counted of entries, entry by entry: everything in front of the first list that cannot
/// be read, also where that list is somewhere inside a directory.
pub proof fn front_adds_up(front: Seq<Entry>, last: Entry)
    ensures
        front_hashes(Seq::empty()) == Seq::<ChunkHash>::empty(),
        tree_hashes(front) is Err ==> front_hashes(front.push(last)) == front_hashes(front),
        tree_hashes(front) is Ok ==> front_hashes(front.push(last)) == front_hashes(front)
            + match last {
            Entry::File(file) => match file_hashes(*file) {
                Ok(hashes) => hashes,
                Err(_) => Seq::empty(),
            },
            Entry::Directory(dir) => front_hashes(dir.entries@),
            Entry::Symlink(_) => Seq::empty(),
        },
{
    reveal_with_fuel(front_hashes, 3);
    reveal_with_fuel(entry_front_hashes, 3);
    assert(front.push(last).drop_last() =~= front);
}

/// The files among entries and everything in them.
pub open spec fn files_in(entries: Seq<Entry>) -> Seq<FileEntry>
    decreases entries,
{
    if entries.len() == 0 {
        Seq::empty()
    } else {
        files_in(entries.drop_last()) + files_of(entries.last())
    }
}

pub open spec fn files_of(entry: Entry) -> Seq<FileEntry>
    decreases entry,
{
    match entry {
        Entry::File(file) => seq![*file],
        Entry::Directory(dir) => files_in(dir.entries@),
        Entry::Symlink(_) => Seq::empty(),
    }
}

/// How often files use a chunk, all of them together.
pub open spec fn uses(files: Seq<FileEntry>, hash: ChunkHash) -> nat
    decreases files.len(),
{
    if files.len() == 0 {
        0
    } else {
        uses(files.drop_last(), hash) + file_hashes(files.last())->Ok_0.to_multiset().count(hash)
    }
}

/// A file that stands among the entries, or anywhere in a directory among them, is one of their
/// files.
pub proof fn every_file_is_found(entries: Seq<Entry>, i: int, file: FileEntry)
    requires
        0 <= i < entries.len(),
        match entries[i] {
            Entry::File(own) => *own == file,
            Entry::Directory(dir) => files_in(dir.entries@).contains(file),
            Entry::Symlink(_) => false,
        },
    ensures
        files_in(entries).contains(file),
    decreases entries.len(),
{
    reveal_with_fuel(files_in, 2);
    reveal_with_fuel(files_of, 2);
    let front = files_in(entries.drop_last());
    let back = files_of(entries.last());
    let all = files_in(entries);
    assert(all == front + back);
    if i + 1 < entries.len() {
        assert(entries.drop_last()[i] == entries[i]);
        every_file_is_found(entries.drop_last(), i, file);
        let k = choose|k: int| 0 <= k < front.len() && front[k] == file;
        assert(all[k] == file);
    } else {
        assert(back.contains(file)) by {
            if entries[i] is File {
                assert(back[0] == file);
            }
        }
        let k = choose|k: int| 0 <= k < back.len() && back[k] == file;
        assert(all[front.len() + k] == file);
    }
}

/// The chunks of a tree are those of its files: every list of them can be read, and every chunk is
/// there exactly as often as the files use it, all of them together.
pub proof fn every_use_is_counted(entries: Seq<Entry>, hash: ChunkHash)
    requires
        tree_hashes(entries) is Ok,
    ensures
        forall|i: int|
            0 <= i < files_in(entries).len() ==> file_hashes(#[trigger] files_in(entries)[i])
                is Ok,
        tree_hashes(entries)->Ok_0.to_multiset().count(hash) == uses(files_in(entries), hash),
    decreases entries,
{
    reveal_with_fuel(files_in, 2);
    reveal_with_fuel(files_of, 2);
    reveal_with_fuel(tree_hashes, 2);
    reveal_with_fuel(entry_tree_hashes, 2);
    broadcast use vstd::seq_lib::group_to_multiset_ensures;

    if entries.len() > 0 {
        let front = entries.drop_last();
        let last = entries.last();
        every_use_is_counted(front, hash);
        let a = tree_hashes(front)->Ok_0;
        let b = entry_tree_hashes(last)->Ok_0;
        vstd::seq_lib::lemma_multiset_commutative(a, b);
        match last {
            Entry::File(file) => {
                assert(seq![*file].drop_last() =~= Seq::empty());
                assert(uses(Seq::empty(), hash) == 0);
                assert(uses(seq![*file], hash) == b.to_multiset().count(hash));
            },
            Entry::Directory(dir) => {
                every_use_is_counted(dir.entries@, hash);
            },
            Entry::Symlink(_) => {
                assert(b =~= Seq::empty());
                assert(uses(Seq::empty(), hash) == 0);
            },
        }
        uses_concat(files_in(front), files_of(last), hash);
        let all = files_in(entries);
        assert forall|i: int| 0 <= i < all.len() implies file_hashes(#[trigger] all[i]) is Ok by {
            if i < files_in(front).len() {
                assert(all[i] == files_in(front)[i]);
            } else {
                assert(all[i] == files_of(last)[i - files_in(front).len()]);
            }
        }
    }
}

proof fn uses_concat(a: Seq<FileEntry>, b: Seq<FileEntry>, hash: ChunkHash)
    ensures
        uses(a + b, hash) == uses(a, hash) + uses(b, hash),
    decreases b.len(),
{
    if b.len() == 0 {
        assert(a + b =~= a);
    } else {
        assert((a + b).drop_last() =~= a + b.drop_last());
        uses_concat(a, b.drop_last(), hash);
    }
}

/// Every chunk of every file of a tree is among the chunks of the tree.
pub proof fn no_chunk_of_a_file_is_missed(entries: Seq<Entry>, i: int, k: int)
    requires
        tree_hashes(entries) is Ok,
        0 <= i < files_in(entries).len(),
        0 <= k < file_hashes(files_in(entries)[i])->Ok_0.len(),
    ensures
        tree_hashes(entries)->Ok_0.contains(file_hashes(files_in(entries)[i])->Ok_0[k]),
{
    broadcast use vstd::seq_lib::group_to_multiset_ensures;

    let list = file_hashes(files_in(entries)[i])->Ok_0;
    let hash = list[k];
    every_use_is_counted(entries, hash);
    uses_of_one(files_in(entries), i, hash);
    assert(list.contains(hash));
    assert(list.to_multiset().count(hash) > 0);
    assert(tree_hashes(entries)->Ok_0.to_multiset().count(hash) > 0);
}

proof fn uses_of_one(files: Seq<FileEntry>, i: int, hash: ChunkHash)
    requires
        0 <= i < files.len(),
    ensures
        uses(files, hash) >= file_hashes(files[i])->Ok_0.to_multiset().count(hash),
    decreases files.len(),
{
    if i + 1 < files.len() {
        assert(files.drop_last()[i] == files[i]);
        uses_of_one(files.drop_last(), i, hash);
    }
}

/// Ids, written one after the other.
pub open spec fn ids_bytes(list: Seq<u64>) -> Seq<u8>
    decreases list.len(),
{
    if list.len() == 0 {
        Seq::empty()
    } else {
        ids_bytes(list.drop_last()) + varint::varint_bytes(list.last() as nat)
    }
}

/// A list of ids is their bytes, one after the other.
pub proof fn ids_are_written_in_order(list: Seq<u64>, id: u64)
    ensures
        ids_bytes(Seq::empty()) == Seq::<u8>::empty(),
        ids_bytes(list.push(id)) == ids_bytes(list) + varint::varint_bytes(id as nat),
{
    assert(list.push(id).drop_last() =~= list);
}

/// A format 1 list stands for the hashes of its ids, one for each, in order, however long it is.
pub proof fn listed_ids_are_resolved(file: FileEntry, list: Seq<u64>, ids: Map<u64, ChunkHash>)
    requires
        file.body is Ok,
        file.body->Ok_0@ == ids_bytes(list),
        forall|i: int| 0 <= i < list.len() ==> ids.contains_key(#[trigger] list[i]),
    ensures
        file_hashes_v1(file, ids) == Ok::<_, error::ErrorModel>(
            Seq::new(list.len(), |i: int| ids[list[i]]),
        ),
{
    let mapped = Seq::new(list.len(), |i: int| ids[list[i]]);
    assert(ids_bytes(list) + Seq::<u8>::empty() =~= ids_bytes(list));
    ids_are_resolved_in_front(file.name@, list, Seq::empty(), ids);
    assert(mapped + Seq::<ChunkHash>::empty() =~= mapped);
}

/// Behind ids that all resolve, what follows decides: its hashes come behind theirs, and its error
/// is the error of the list.
pub proof fn ids_are_resolved_in_front(
    name: Seq<char>,
    list: Seq<u64>,
    rest: Seq<u8>,
    ids: Map<u64, ChunkHash>,
)
    requires
        forall|i: int| 0 <= i < list.len() ==> ids.contains_key(#[trigger] list[i]),
    ensures
        hashes_by_id(name, ids_bytes(list) + rest, 0, ids) == match hashes_by_id(
            name,
            ids_bytes(list) + rest,
            ids_bytes(list).len() as int,
            ids,
        ) {
            Ok(more) => Ok(Seq::new(list.len(), |i: int| ids[list[i]]) + more),
            Err(err) => Err(err),
        },
    decreases list.len(),
{
    let mapped = Seq::new(list.len(), |i: int| ids[list[i]]);
    let body = ids_bytes(list) + rest;
    if list.len() == 0 {
        if let Ok(more) = hashes_by_id(name, body, 0, ids) {
            assert(mapped + more =~= more);
        }
    } else {
        let front = list.drop_last();
        let id = list.last();
        let bytes = varint::varint_bytes(id as nat);
        assert forall|i: int| 0 <= i < front.len() implies ids.contains_key(
            #[trigger] front[i],
        ) by {
            assert(front[i] == list[i]);
        }
        assert(list[list.len() - 1] == id);
        ids_are_resolved_in_front(name, front, bytes + rest, ids);
        assert(ids_bytes(front) + (bytes + rest) =~= body);
        assert(body =~= ids_bytes(front) + bytes + rest);
        varint::varint_round_trip(id, ids_bytes(front), rest, StreamEnd::Complete);
        varint::varint_at_moves_on(body, StreamEnd::Complete, ids_bytes(front).len() as int);
        assert(ids_bytes(list).len() == ids_bytes(front).len() + bytes.len());
        if let Ok(more) = hashes_by_id(name, body, ids_bytes(list).len() as int, ids) {
            let front_mapped = Seq::new(front.len(), |i: int| ids[front[i]]);
            assert(front_mapped + (seq![ids[id]] + more) =~= mapped + more);
        }
    }
}

/// An id that is not known is damage, whatever stands in front of it and behind it.
pub proof fn unknown_ids_are_told(
    file: FileEntry,
    list: Seq<u64>,
    unknown: u64,
    rest: Seq<u8>,
    ids: Map<u64, ChunkHash>,
)
    requires
        file.body is Ok,
        file.body->Ok_0@ == ids_bytes(list) + (varint::varint_bytes(unknown as nat) + rest),
        forall|i: int| 0 <= i < list.len() ==> ids.contains_key(#[trigger] list[i]),
        !ids.contains_key(unknown),
    ensures
        file_hashes_v1(file, ids) == Err::<Seq<ChunkHash>, _>(
            error::ErrorModel {
                kind: ErrorKind::InvalidData,
                message: "entry "@ + file.name@ + " references unknown chunk id "@
                    + text::decimal_text(unknown as nat),
            },
        ),
{
    let bytes = varint::varint_bytes(unknown as nat);
    let body = file.body->Ok_0@;
    ids_are_resolved_in_front(file.name@, list, bytes + rest, ids);
    varint::varint_round_trip(unknown, ids_bytes(list), rest, StreamEnd::Complete);
    varint::varint_at_moves_on(body, StreamEnd::Complete, ids_bytes(list).len() as int);
    assert(body =~= ids_bytes(list) + bytes + rest);
}

/// A number that cannot be read ends a list of ids with the error of reading it.
pub proof fn broken_ids_are_told(
    file: FileEntry,
    list: Seq<u64>,
    rest: Seq<u8>,
    ids: Map<u64, ChunkHash>,
)
    requires
        file.body is Ok,
        file.body->Ok_0@ == ids_bytes(list) + rest,
        forall|i: int| 0 <= i < list.len() ==> ids.contains_key(#[trigger] list[i]),
        rest.len() > 0,
        varint::varint_at(
            ids_bytes(list) + rest,
            StreamEnd::Complete,
            ids_bytes(list).len() as int,
        ) is Err,
    ensures
        file_hashes_v1(file, ids) == Err::<Seq<ChunkHash>, _>(
            varint::varint_at(
                ids_bytes(list) + rest,
                StreamEnd::Complete,
                ids_bytes(list).len() as int,
            )->Err_0,
        ),
{
    ids_are_resolved_in_front(file.name@, list, rest, ids);
}

/// Hashes, or an error, by value: all of them, in order, and the error as it is.
pub proof fn hashes_by_value(hashes: Vec<ChunkHash>, err: Error)
    ensures
        hashes_model(Ok(hashes)) == Ok::<_, error::ErrorModel>(hashes@),
        hashes_model(Err(err)) == Err::<Seq<ChunkHash>, _>(err@),
{
}

} // verus!
