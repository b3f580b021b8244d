//! Writing a backup: what is taken from a walk, how it is gathered, and which chunks are written.
use crate::chunks::cdc;
use crate::chunks::chunk;
use crate::chunks::codec::CompressionFormat;
use crate::chunks::counting;
use crate::chunks::hash;
use crate::chunks::hash::{ChunkHash, HashAlgorithm};
use crate::chunks::index;
use crate::chunks::index::ChunkIndex;
use crate::entries;
use crate::entries::{DirectoryEntry, Entry, FileEntry, SymlinkEntry, Timestamp};
use crate::error;
use crate::error::{invalid, record, Error, ErrorKind};
use crate::migrate;
use crate::migrate::flatten;
use crate::repository::names;
use crate::repository::names::is_repository_internal;
use crate::text;
use crate::tree;
use crate::tree::{add_entry, assemble, Group, Parts};
use vstd::prelude::*;
use vstd::slice::slice_subrange;

verus! {

/// The deepest nesting that an archive can hold.
pub const MAX_DEPTH: usize = 256;

/// A path that a walk came to.
#[derive(Debug)]
pub struct WalkItem {
    /// The path, to show.
    pub shown: String,
    /// The parts of the path below the backup root. `None` when it is not below the root.
    pub parts: Option<Parts>,
}

/// What becomes of a path that a walk came to.
#[derive(Debug)]
pub enum Visit {
    Skip,
    /// It is backed up under this name in this directory.
    Take(String, Parts),
}

/// The mathematical value of a [`Visit`].
pub enum VisitModel {
    Skip,
    Take(Seq<char>, Seq<Option<Seq<char>>>),
}

/// What is kept of a file system entry besides its content.
#[derive(Debug, Clone, Copy)]
pub struct Metadata {
    pub mode: u32,
    pub owner: (u32, u32),
    pub mtime: Timestamp,
}

/// What stands at a path.
#[derive(Debug)]
pub enum Found {
    File,
    Directory(Metadata),
    /// A link, with its target if that is Unicode, and whether the target is a directory.
    Symlink(Metadata, Option<String>, bool),
    Other,
}

/// What became of what stands at a path.
#[derive(Debug)]
pub enum Placed {
    /// A file, to be cut into chunks and added under this name to this directory.
    File(String, Parts),
    Added,
    Skipped,
}

/// What a backup has gathered so far.
#[derive(Debug)]
pub struct Gathering {
    /// The first error that came. It ends the backup.
    pub error: Option<Error>,
    pub groups: Vec<Group>,
}

/// What is known so far of a file that is cut as it is read: the hashes of its pieces, in order,
/// and the sum of their lengths. Where it is cut is up to `fastcdc::v2020::StreamCDC`, which does
/// the reading; nothing is said here of where the pieces end.
#[derive(Debug)]
pub struct Streamed {
    pub hashes: Vec<ChunkHash>,
    pub size: u64,
}

/// Whether a path ends in something that is not a name of its own.
pub open spec fn ends_nameless(parts: Seq<Option<Seq<char>>>) -> bool {
    parts.len() == 0 || parts.last() == Some(".."@) || parts.last() == Some("."@) || parts.last()
        == Some("/"@)
}

/// What becomes of a path. What the reader would reject is refused before anything is published.
/// The repository's own directories are left out path by path: the walk still descends into them.
pub open spec fn visited(
    shown: Seq<char>,
    parts: Option<Seq<Option<Seq<char>>>>,
    root: Seq<char>,
    max_depth: usize,
) -> Result<VisitModel, error::ErrorModel> {
    match parts {
        None => Err(error::invalid_model(shown + " is outside "@ + root)),
        Some(parts) => if ends_nameless(parts) {
            Ok(VisitModel::Skip)
        } else {
            match parts.last() {
                None => Err(error::invalid_model(shown + " is not a valid UTF-8 file name"@)),
                Some(name) => if names::internal_path(parts) {
                    Ok(VisitModel::Skip)
                } else if parts.len() > max_depth {
                    Err(
                        error::invalid_model(
                            shown + " is nested deeper than the "@ + text::decimal_text(
                                max_depth as nat,
                            ) + " levels an archive can hold"@,
                        ),
                    )
                } else {
                    Ok(VisitModel::Take(name, parts.drop_last()))
                },
            }
        },
    }
}

/// The parts of a path that may be there, by value.
pub open spec fn parts_model(parts: Option<Parts>) -> Option<Seq<Option<Seq<char>>>> {
    match parts {
        Some(parts) => Some(tree::path_model(parts@)),
        None => None,
    }
}

/// A visit, or an error, by value.
pub open spec fn visit_model(result: Result<Visit, Error>) -> Result<
    VisitModel,
    error::ErrorModel,
> {
    match result {
        Ok(Visit::Skip) => Ok(VisitModel::Skip),
        Ok(Visit::Take(name, parent)) => Ok(
            VisitModel::Take(name@, tree::path_model(parent@)),
        ),
        Err(err) => Err(err@),
    }
}

/// The hashes of the pieces of a file.
pub open spec fn piece_hashes(
    algorithm: HashAlgorithm,
    data: Seq<u8>,
    ranges: Seq<(usize, usize)>,
) -> Seq<ChunkHash> {
    ranges.map_values(|range: (usize, usize)| hash::digest(algorithm, piece_at(data, range)))
}

/// The bytes of a piece of a file.
pub open spec fn piece_at(data: Seq<u8>, range: (usize, usize)) -> Seq<u8> {
    data.subrange(range.0 as int, range.0 + range.1)
}

/// Pieces put together, one after the other.
pub open spec fn joined(pieces: Seq<Seq<u8>>) -> Seq<u8>
    decreases pieces.len(),
{
    if pieces.len() == 0 {
        Seq::empty()
    } else {
        joined(pieces.drop_last()) + pieces.last()
    }
}

/// The hashes of pieces, in order.
pub open spec fn digests(algorithm: HashAlgorithm, pieces: Seq<Seq<u8>>) -> Seq<ChunkHash> {
    pieces.map_values(|piece: Seq<u8>| hash::digest(algorithm, piece))
}

/// The content of a file, put together from its chunks in storage. The first chunk that cannot be
/// read decides.
pub open spec fn content_of(
    algorithm: HashAlgorithm,
    hashes: Seq<ChunkHash>,
    storage: Map<ChunkHash, Seq<u8>>,
) -> Result<Seq<u8>, error::ErrorModel>
    decreases hashes.len(),
{
    if hashes.len() == 0 {
        Ok(Seq::empty())
    } else {
        match content_of(algorithm, hashes.drop_last(), storage) {
            Ok(front) => match chunk::verified_chunk(
                algorithm,
                hashes.last(),
                storage[hashes.last()],
            ) {
                Ok(data) => Ok(front + data),
                Err(err) => Err(err),
            },
            Err(err) => Err(err),
        }
    }
}

/// A file that was backed up restores as it was: cut anywhere into pieces that cover it, with each
/// piece stored under its hash in a form that reads back as the piece, its chunks put together are
/// its bytes.
pub proof fn backup_restores(
    algorithm: HashAlgorithm,
    data: Seq<u8>,
    ranges: Seq<(usize, usize)>,
    storage: Map<ChunkHash, Seq<u8>>,
)
    requires
        cdc::rejoined(data, ranges) == data,
        forall|i: int|
            0 <= i < ranges.len() ==> ({
                let piece = piece_at(data, #[trigger] ranges[i]);
                let hash = hash::digest(algorithm, piece);
                chunk::verified_chunk(algorithm, hash, storage[hash]) == Ok::<
                    _,
                    error::ErrorModel,
                >(piece)
            }),
    ensures
        content_of(algorithm, piece_hashes(algorithm, data, ranges), storage) == Ok::<
            _,
            error::ErrorModel,
        >(data),
{
    pieces_restore(algorithm, data, ranges, storage);
}

proof fn pieces_restore(
    algorithm: HashAlgorithm,
    data: Seq<u8>,
    ranges: Seq<(usize, usize)>,
    storage: Map<ChunkHash, Seq<u8>>,
)
    requires
        forall|i: int|
            0 <= i < ranges.len() ==> ({
                let piece = piece_at(data, #[trigger] ranges[i]);
                let hash = hash::digest(algorithm, piece);
                chunk::verified_chunk(algorithm, hash, storage[hash]) == Ok::<
                    _,
                    error::ErrorModel,
                >(piece)
            }),
    ensures
        content_of(algorithm, piece_hashes(algorithm, data, ranges), storage) == Ok::<
            _,
            error::ErrorModel,
        >(cdc::rejoined(data, ranges)),
    decreases ranges.len(),
{
    let hashes = piece_hashes(algorithm, data, ranges);
    if ranges.len() > 0 {
        let front = ranges.drop_last();
        assert forall|i: int| 0 <= i < front.len() implies ({
            let piece = piece_at(data, #[trigger] front[i]);
            let hash = hash::digest(algorithm, piece);
            chunk::verified_chunk(algorithm, hash, storage[hash]) == Ok::<_, error::ErrorModel>(
                piece,
            )
        }) by {
            assert(front[i] == ranges[i]);
        }
        pieces_restore(algorithm, data, front, storage);
        assert(hashes.drop_last() =~= piece_hashes(algorithm, data, front));
        assert(hashes.last() == hash::digest(algorithm, piece_at(data, ranges.last())));
        assert(ranges[ranges.len() - 1] == ranges.last());
    }
}

/// Pieces that are stored under their hashes, each in a form that reads back as the piece, are put
/// together from storage as they are one after the other.
pub proof fn joined_restores(
    algorithm: HashAlgorithm,
    pieces: Seq<Seq<u8>>,
    storage: Map<ChunkHash, Seq<u8>>,
)
    requires
        forall|i: int|
            0 <= i < pieces.len() ==> ({
                let hash = hash::digest(algorithm, #[trigger] pieces[i]);
                chunk::verified_chunk(algorithm, hash, storage[hash]) == Ok::<
                    _,
                    error::ErrorModel,
                >(pieces[i])
            }),
    ensures
        content_of(algorithm, digests(algorithm, pieces), storage) == Ok::<_, error::ErrorModel>(
            joined(pieces),
        ),
    decreases pieces.len(),
{
    if pieces.len() > 0 {
        let front = pieces.drop_last();
        assert forall|i: int| 0 <= i < front.len() implies ({
            let hash = hash::digest(algorithm, #[trigger] front[i]);
            chunk::verified_chunk(algorithm, hash, storage[hash]) == Ok::<_, error::ErrorModel>(
                front[i],
            )
        }) by {
            assert(front[i] == pieces[i]);
        }
        joined_restores(algorithm, front, storage);
        assert(digests(algorithm, pieces).drop_last() =~= digests(algorithm, front));
        assert(pieces[pieces.len() - 1] == pieces.last());
    }
}

/// Decides whether an archive of this name may be created. `look` is what looking for its file
/// gave; anything that is there counts as taken, a dangling link too.
pub fn claim_name(name: &str, look: Result<(), Error>) -> (claim: Result<(), Error>)
    ensures
        match look {
            Ok(()) => claim is Err && claim->Err_0@ == error::error_model(
                ErrorKind::AlreadyExists,
                "archive "@ + name@ + " already exists"@,
            ),
            Err(err) => if err.kind == ErrorKind::NotFound {
                claim is Ok
            } else {
                claim is Err && claim->Err_0 == err
            },
        },
{
    match look {
        Ok(()) => Err(
            Error::new(
                ErrorKind::AlreadyExists,
                text::join3("archive ", name, " already exists"),
            ),
        ),
        Err(err) => if err.kind == ErrorKind::NotFound {
            Ok(())
        } else {
            Err(err)
        },
    }
}

/// Whether an error of a walk is skipped: errors inside the repository's own directories are
/// skipped along with them. `parts` is the path that the error is about, below the root.
pub fn skips_walk_error(parts: &Option<Parts>) -> (skips: bool)
    ensures
        skips == match parts_model(*parts) {
            Some(parts) => names::internal_path(parts),
            None => false,
        },
        skips <==> *parts is Some && exists|i: int|
            0 <= i < parts->0@.len() && (#[trigger] parts->0@[i]) is Some && (parts->0@[i]->0@
                == ".ddup-bak"@ || parts->0@[i]->0@ == ".ddup-bak-restore"@),
{
    match parts {
        Some(parts) => is_repository_internal(parts),
        None => false,
    }
}

/// Decides what becomes of a path that a walk came to.
pub fn visit(item: &WalkItem, root: &str, max_depth: usize) -> (visit: Result<Visit, Error>)
    ensures
        visit_model(visit) == visited(item.shown@, parts_model(item.parts), root@, max_depth),
        item.parts is None ==> visit is Err && visit->Err_0.kind is InvalidData
            && visit->Err_0.message@ == item.shown@ + " is outside "@ + root@,
        item.parts is Some ==> ({
            let parts = item.parts->0@;
            let nameless = parts.len() == 0 || (parts.last() is Some && (parts.last()->0@ == "."@
                || parts.last()->0@ == ".."@ || parts.last()->0@ == "/"@));
            let own = exists|i: int|
                0 <= i < parts.len() && (#[trigger] parts[i]) is Some && (parts[i]->0@
                    == ".ddup-bak"@ || parts[i]->0@ == ".ddup-bak-restore"@);
            &&& nameless ==> visit is Ok && visit->Ok_0 is Skip
            &&& !nameless && parts.last() is None ==> visit is Err && visit->Err_0.kind
                is InvalidData && visit->Err_0.message@ == item.shown@
                + " is not a valid UTF-8 file name"@
            &&& !nameless && parts.last() is Some && own ==> visit is Ok && visit->Ok_0 is Skip
            &&& !nameless && parts.last() is Some && !own && parts.len() > max_depth ==> visit
                is Err && visit->Err_0.kind is InvalidData && visit->Err_0.message@ == item.shown@
                + " is nested deeper than the "@ + text::decimal_text(max_depth as nat)
                + " levels an archive can hold"@
            &&& !nameless && parts.last() is Some && !own && parts.len() <= max_depth ==> {
                &&& visit is Ok && visit->Ok_0 is Take
                &&& visit->Ok_0->Take_0@ == parts.last()->0@
                &&& visit->Ok_0->Take_1@.len() == parts.len() - 1
                &&& forall|i: int|
                    0 <= i < parts.len() - 1 ==> match (#[trigger] visit->Ok_0->Take_1@[i]) {
                        Some(part) => parts[i] is Some && part@ == parts[i]->0@,
                        None => parts[i] is None,
                    }
            }
        }),
{
    let parts = match &item.parts {
        Some(parts) => parts,
        None => {
            return Err(invalid(text::join3(item.shown.as_str(), " is outside ", root)));
        },
    };
    let ghost model = tree::path_model(parts@);
    let len: usize = parts.len();
    if len == 0 {
        return Ok(Visit::Skip);
    }
    assert(model.last() == model[len - 1]);
    let name = match &parts[len - 1] {
        Some(name) => name,
        None => {
            return Err(
                invalid(text::join2(item.shown.as_str(), " is not a valid UTF-8 file name")),
            );
        },
    };
    if text::same_text(name.as_str(), "..") || text::same_text(name.as_str(), ".")
        || text::same_text(name.as_str(), "/") {
        return Ok(Visit::Skip);
    }
    if is_repository_internal(parts) {
        return Ok(Visit::Skip);
    }
    if len > max_depth {
        let levels = text::decimal(max_depth as u64);
        return Err(
            invalid(
                text::join4(
                    item.shown.as_str(),
                    " is nested deeper than the ",
                    levels.as_str(),
                    " levels an archive can hold",
                ),
            ),
        );
    }
    let mut parent = parts.clone();
    parent.truncate(len - 1);
    assert(tree::path_model(parent@) =~= model.drop_last());
    proof {
        assert forall|i: int| 0 <= i < len - 1 implies match (#[trigger] parent@[i]) {
            Some(part) => parts@[i] is Some && part@ == parts@[i]->0@,
            None => parts@[i] is None,
        } by {
            assert(tree::path_model(parent@)[i] == model[i]);
        }
    }
    Ok(Visit::Take(name.clone(), parent))
}

/// The target of a link, which has to be Unicode.
pub fn link_target(shown: &str, target: Option<String>) -> (checked: Result<String, Error>)
    ensures
        match target {
            Some(target) => checked is Ok && checked->Ok_0 == target,
            None => checked is Err && checked->Err_0@ == error::invalid_model(
                shown@ + " has a non-UTF-8 target"@,
            ),
        },
{
    match target {
        Some(target) => Ok(target),
        None => Err(invalid(text::join2(shown, " has a non-UTF-8 target"))),
    }
}

/// The error for a file that is something else once it is open.
pub fn changed_while_read(shown: &str) -> (error: Error)
    ensures
        error@ == error::error_model(ErrorKind::Other, shown@ + " changed while being read"@),
{
    Error::new(ErrorKind::Other, text::join2(shown, " changed while being read"))
}

/// The entry of a file with these chunks.
pub fn file_entry(name: String, metadata: Metadata, size: u64, hashes: &Vec<ChunkHash>) -> (entry:
    Entry)
    ensures
        entry is File,
        entry->File_0.name == name,
        entry->File_0.mode == metadata.mode,
        entry->File_0.owner == metadata.owner,
        entry->File_0.mtime == metadata.mtime,
        entry->File_0.size_real == size,
        entry->File_0.body is Ok,
        entry->File_0.body->Ok_0@ == migrate::flattened(hashes@),
        (hashes@.len() == 0) == (size == 0) ==> entries::file_hashes(*entry->File_0) == Ok::<
            _,
            error::ErrorModel,
        >(hashes@),
{
    proof {
        migrate::flattened_reads_back(hashes@);
    }
    Entry::File(
        Box::new(
            FileEntry {
                name,
                mode: metadata.mode,
                owner: metadata.owner,
                mtime: metadata.mtime,
                size_real: size,
                body: Ok(flatten(hashes)),
            },
        ),
    )
}

/// The entry of a directory, without what is in it.
pub fn directory_entry(name: String, metadata: Metadata) -> (entry: Entry)
    ensures
        tree::tree_of(entry) == tree::Tree::Directory(
            name@,
            metadata.mode,
            metadata.owner,
            metadata.mtime,
            Seq::empty(),
        ),
{
    proof {
        reveal_with_fuel(tree::tree_of, 2);
        reveal_with_fuel(tree::trees_of, 2);
    }
    Entry::Directory(
        Box::new(
            DirectoryEntry {
                name,
                mode: metadata.mode,
                owner: metadata.owner,
                mtime: metadata.mtime,
                entries: Vec::new(),
            },
        ),
    )
}

/// The entry of a link.
pub fn symlink_entry(name: String, metadata: Metadata, target: String, target_dir: bool) -> (entry:
    Entry)
    ensures
        entry is Symlink,
        *entry->Symlink_0 == (SymlinkEntry {
            name,
            mode: metadata.mode,
            owner: metadata.owner,
            mtime: metadata.mtime,
            target,
            target_dir,
        }),
{
    Entry::Symlink(
        Box::new(
            SymlinkEntry {
                name,
                mode: metadata.mode,
                owner: metadata.owner,
                mtime: metadata.mtime,
                target,
                target_dir,
            },
        ),
    )
}

impl Gathering {
    pub fn new() -> (gathering: Self)
        ensures
            gathering.error is None,
            gathering.groups@.len() == 0,
    {
        Gathering { error: None, groups: Vec::new() }
    }

    /// Whether an error has ended the backup.
    pub fn failed(&self) -> (failed: bool)
        ensures
            failed == (self.error is Some),
    {
        self.error.is_some()
    }

    /// Keeps the first error that comes.
    pub fn record(&mut self, result: Result<(), Error>)
        ensures
            final(self).groups == old(self).groups,
            match (result, old(self).error) {
                (Err(err), None) => final(self).error == Some(err),
                _ => final(self).error == old(self).error,
            },
    {
        record(result, &mut self.error);
    }

    /// Adds an entry to its directory.
    pub fn add(&mut self, parent: Parts, entry: Entry)
        ensures
            final(self).error == old(self).error,
            tree::groups_model(final(self).groups@) == tree::added(
                tree::groups_model(old(self).groups@),
                tree::path_model(parent@),
                tree::tree_of(entry),
            ),
    {
        add_entry(&mut self.groups, parent, entry);
    }

    /// Takes what stands at a path that a walk came to. Files come back, to be cut into chunks;
    /// what is neither a file, a directory nor a link is left out.
    pub fn place(&mut self, shown: &str, name: String, parent: Parts, found: Found) -> (placed:
        Result<Placed, Error>)
        ensures
            final(self).error == old(self).error,
            match found {
                Found::File => {
                    &&& placed is Ok
                    &&& placed->Ok_0 is File
                    &&& placed->Ok_0->File_0 == name
                    &&& placed->Ok_0->File_1 == parent
                    &&& final(self).groups == old(self).groups
                },
                Found::Directory(metadata) => {
                    &&& placed is Ok
                    &&& placed->Ok_0 is Added
                    &&& tree::groups_model(final(self).groups@) == tree::added(
                        tree::groups_model(old(self).groups@),
                        tree::path_model(parent@),
                        tree::Tree::Directory(
                            name@,
                            metadata.mode,
                            metadata.owner,
                            metadata.mtime,
                            Seq::empty(),
                        ),
                    )
                },
                Found::Symlink(metadata, Some(target), target_dir) => {
                    &&& placed is Ok
                    &&& placed->Ok_0 is Added
                    &&& tree::groups_model(final(self).groups@) == tree::added(
                        tree::groups_model(old(self).groups@),
                        tree::path_model(parent@),
                        tree::Tree::Symlink(
                            SymlinkEntry {
                                name,
                                mode: metadata.mode,
                                owner: metadata.owner,
                                mtime: metadata.mtime,
                                target,
                                target_dir,
                            },
                        ),
                    )
                },
                Found::Symlink(_, None, _) => {
                    &&& placed is Err
                    &&& placed->Err_0@ == error::invalid_model(shown@ + " has a non-UTF-8 target"@)
                    &&& final(self).groups == old(self).groups
                },
                Found::Other => {
                    &&& placed is Ok
                    &&& placed->Ok_0 is Skipped
                    &&& final(self).groups == old(self).groups
                },
            },
    {
        match found {
            Found::File => Ok(Placed::File(name, parent)),
            Found::Directory(metadata) => {
                self.add(parent, directory_entry(name, metadata));
                Ok(Placed::Added)
            },
            Found::Symlink(metadata, target, target_dir) => match link_target(shown, target) {
                Ok(target) => {
                    self.add(parent, symlink_entry(name, metadata, target, target_dir));
                    Ok(Placed::Added)
                },
                Err(err) => Err(err),
            },
            Found::Other => Ok(Placed::Skipped),
        }
    }

    /// The entries of the archive, nested, unless an error ended the backup.
    pub fn finish(self) -> (entries: Result<Vec<Entry>, Error>)
        ensures
            match self.error {
                Some(err) => entries is Err && entries->Err_0 == err,
                None => entries is Ok && tree::trees_of(entries->Ok_0@) == tree::assembled(
                    Seq::empty(),
                    tree::groups_model(self.groups@),
                ).0,
            },
    {
        match self.error {
            Some(err) => Err(err),
            None => {
                let root: Parts = Vec::new();
                assert(tree::path_model(root@) =~= Seq::empty());
                let mut groups = self.groups;
                Ok(assemble(&root, &mut groups))
            },
        }
    }
}

/// The compression of a file's chunks.
pub fn compression_of(chosen: Option<CompressionFormat>) -> (compression: CompressionFormat)
    ensures
        compression == match chosen {
            Some(chosen) => chosen,
            None => CompressionFormat::Deflate,
        },
{
    match chosen {
        Some(compression) => compression,
        None => CompressionFormat::Deflate,
    }
}

/// Hashes the pieces of a file that is in memory.
pub fn hash_pieces(algorithm: HashAlgorithm, data: &[u8], ranges: &Vec<(usize, usize)>) -> (hashes:
    Vec<ChunkHash>)
    requires
        forall|i: int|
            0 <= i < ranges@.len() ==> #[trigger] ranges@[i].0 + ranges@[i].1 <= data@.len(),
    ensures
        hashes@ == piece_hashes(algorithm, data@, ranges@),
        hashes@.len() == ranges@.len(),
        forall|i: int|
            0 <= i < ranges@.len() ==> #[trigger] hashes@[i] == hash::digest(
                algorithm,
                data@.subrange(ranges@[i].0 as int, ranges@[i].0 + ranges@[i].1),
            ),
{
    let mut hashes: Vec<ChunkHash> = Vec::new();
    let mut i: usize = 0;
    while i < ranges.len()
        invariant
            i <= ranges@.len(),
            forall|i: int|
                0 <= i < ranges@.len() ==> #[trigger] ranges@[i].0 + ranges@[i].1 <= data@.len(),
            hashes@ == piece_hashes(algorithm, data@, ranges@).take(i as int),
        decreases ranges@.len() - i,
    {
        let (offset, length) = ranges[i];
        assert(ranges@[i as int].0 + ranges@[i as int].1 <= data@.len());
        assert(data@.len() == data.len());
        hashes.push(algorithm.hash(slice_subrange(data, offset, offset + length)));
        assert(hashes@ =~= piece_hashes(algorithm, data@, ranges@).take(i + 1));
        i = i + 1;
    }
    assert(hashes@ =~= piece_hashes(algorithm, data@, ranges@));
    hashes
}

/// Counts a chunk for the archive that is being written. Gives its hash, and whether the index
/// already counted it.
pub fn store(index: &mut ChunkIndex, data: &[u8]) -> (stored: (ChunkHash, bool))
    ensures
        stored.0 == hash::digest(old(index)@.hash_algorithm, data@),
        final(index)@ == index::with_counts(
            old(index)@,
            counting::counted(old(index)@.counts, seq![stored.0]),
        ),
        stored.1 == (index::references_of(old(index)@.counts, stored.0) > 0),
{
    let hash = index.algorithm().hash(data);
    let count: u64 = index.reference(&hash);
    proof {
        let one = seq![hash];
        assert(one.drop_last() =~= Seq::empty());
        assert(one.last() == hash);
        assert(counting::counted(old(index)@.counts, one.drop_last()) == old(index)@.counts);
    }
    (hash, count > 1)
}

impl Streamed {
    /// Whether this is what is known once these pieces have been read.
    pub open spec fn lists(self, algorithm: HashAlgorithm, pieces: Seq<Seq<u8>>) -> bool {
        &&& self.hashes@ == digests(algorithm, pieces)
        &&& self.size == joined(pieces).len()
    }

    /// Before anything is read.
    pub fn new() -> (streamed: Self)
        ensures
            streamed.hashes@.len() == 0,
            streamed.size == 0,
            forall|algorithm: HashAlgorithm| #[trigger]
                streamed.lists(algorithm, Seq::empty()),
    {
        let streamed = Streamed { hashes: Vec::new(), size: 0 };
        assert forall|algorithm: HashAlgorithm| #[trigger]
            streamed.lists(algorithm, Seq::empty()) by {
            assert(streamed.hashes@ =~= digests(algorithm, Seq::empty()));
        }
        streamed
    }

    /// Takes the next piece, and counts it for the archive that is being written. Gives its hash,
    /// and whether the index already counted it.
    pub fn push(&mut self, index: &mut ChunkIndex, piece: &[u8]) -> (stored: (ChunkHash, bool))
        requires
            old(self).size + piece@.len() <= u64::MAX,
        ensures
            stored.0 == hash::digest(old(index)@.hash_algorithm, piece@),
            final(self).hashes@ == old(self).hashes@.push(stored.0),
            final(self).size == old(self).size + piece@.len(),
            forall|pieces: Seq<Seq<u8>>|
                #![trigger old(self).lists(old(index)@.hash_algorithm, pieces)]
                #![trigger final(self).lists(old(index)@.hash_algorithm, pieces.push(piece@))]
                old(self).lists(old(index)@.hash_algorithm, pieces) ==> final(self).lists(
                    old(index)@.hash_algorithm,
                    pieces.push(piece@),
                ),
            final(index)@ == index::with_counts(
                old(index)@,
                counting::counted(old(index)@.counts, seq![stored.0]),
            ),
            stored.1 == (index::references_of(old(index)@.counts, stored.0) > 0),
    {
        let ghost algorithm = index@.hash_algorithm;
        let stored = store(index, piece);
        self.hashes.push(stored.0);
        self.size = self.size + piece.len() as u64;
        proof {
            assert forall|pieces: Seq<Seq<u8>>| #[trigger]
                old(self).lists(algorithm, pieces) implies self.lists(
                algorithm,
                pieces.push(piece@),
            ) by {
                let more = pieces.push(piece@);
                assert(more.drop_last() =~= pieces);
                assert(self.hashes@ =~= digests(algorithm, more));
            }
        }
        stored
    }
}

/// Whether a chunk has to be written. A count doesn't prove that the chunk exists; one that was
/// lost is written again. `present` says whether storage has it, and is only looked up for a chunk
/// that was counted.
pub fn must_write(counted: bool, present: bool) -> (write: bool)
    ensures
        write == !(counted && present),
{
    !(counted && present)
}

/// Once a chunk is stored it is in storage, whether it was counted before or not.
pub proof fn storing_stores(
    stored: Set<ChunkHash>,
    hash: ChunkHash,
    counted: bool,
)
    ensures
        ({
            let write = !(counted && stored.contains(hash));
            let after = if write {
                stored.insert(hash)
            } else {
                stored
            };
            &&& after.contains(hash)
            &&& forall|other: ChunkHash| #[trigger]
                stored.contains(other) ==> after.contains(other)
        }),
{
}

/// The hashes of pieces are those of their bytes, one for each and in order, and pieces put
/// together are their bytes, one piece behind the other.
pub proof fn pieces_in_order(
    algorithm: HashAlgorithm,
    data: Seq<u8>,
    ranges: Seq<(usize, usize)>,
    pieces: Seq<Seq<u8>>,
)
    ensures
        piece_hashes(algorithm, data, ranges) == Seq::new(
            ranges.len(),
            |i: int|
                hash::digest(
                    algorithm,
                    data.subrange(ranges[i].0 as int, ranges[i].0 + ranges[i].1),
                ),
        ),
        digests(algorithm, pieces) == Seq::new(
            pieces.len(),
            |i: int| hash::digest(algorithm, pieces[i]),
        ),
        joined(pieces) == pieces.flatten(),
    decreases pieces.len(),
{
    assert(piece_hashes(algorithm, data, ranges) =~= Seq::new(
        ranges.len(),
        |i: int|
            hash::digest(algorithm, data.subrange(ranges[i].0 as int, ranges[i].0 + ranges[i].1)),
    ));
    assert(digests(algorithm, pieces) =~= Seq::new(
        pieces.len(),
        |i: int| hash::digest(algorithm, pieces[i]),
    ));
    pieces.lemma_flatten_and_flatten_alt_are_equivalent();
    if pieces.len() > 0 {
        let front = pieces.drop_last();
        pieces_in_order(algorithm, data, ranges, front);
        front.lemma_flatten_and_flatten_alt_are_equivalent();
    }
}

/// The content of a file is what its chunks in storage hold, one behind the other, if each of them
/// is what its hash names.
pub proof fn content_by_its_chunks(
    algorithm: HashAlgorithm,
    hashes: Seq<ChunkHash>,
    pieces: Seq<Seq<u8>>,
    storage: Map<ChunkHash, Seq<u8>>,
)
    requires
        pieces.len() == hashes.len(),
        forall|i: int|
            0 <= i < pieces.len() ==> chunk::verified_chunk(
                algorithm,
                hashes[i],
                storage[hashes[i]],
            ) == Ok::<_, error::ErrorModel>(#[trigger] pieces[i]),
    ensures
        content_of(algorithm, hashes, storage) == Ok::<_, error::ErrorModel>(pieces.flatten()),
    decreases hashes.len(),
{
    pieces.lemma_flatten_and_flatten_alt_are_equivalent();
    if hashes.len() > 0 {
        let front = pieces.drop_last();
        assert forall|i: int| 0 <= i < front.len() implies chunk::verified_chunk(
            algorithm,
            hashes.drop_last()[i],
            storage[hashes.drop_last()[i]],
        ) == Ok::<_, error::ErrorModel>(#[trigger] front[i]) by {
            assert(front[i] == pieces[i]);
        }
        content_by_its_chunks(algorithm, hashes.drop_last(), front, storage);
        front.lemma_flatten_and_flatten_alt_are_equivalent();
        assert(pieces[pieces.len() - 1] == pieces.last());
    }
}

/// A file has no content as long as one of its chunks is not what its hash names.
pub proof fn no_content_without_every_chunk(
    algorithm: HashAlgorithm,
    hashes: Seq<ChunkHash>,
    storage: Map<ChunkHash, Seq<u8>>,
    i: int,
)
    requires
        0 <= i < hashes.len(),
        chunk::verified_chunk(algorithm, hashes[i], storage[hashes[i]]) is Err,
    ensures
        content_of(algorithm, hashes, storage) is Err,
    decreases hashes.len(),
{
    if i + 1 < hashes.len() {
        assert(hashes.drop_last()[i] == hashes[i]);
        no_content_without_every_chunk(algorithm, hashes.drop_last(), storage, i);
    }
}

/// An archive can hold 256 levels, and what lies deeper is refused before anything is written.
pub proof fn depth_is_bounded(shown: Seq<char>, parts: Seq<Option<Seq<char>>>, root: Seq<char>)
    requires
        parts.len() > 256,
        parts.last() is Some,
        parts.last() != Some("."@) && parts.last() != Some(".."@) && parts.last() != Some("/"@),
        !parts.contains(Some(".ddup-bak"@)) && !parts.contains(Some(".ddup-bak-restore"@)),
    ensures
        visited(shown, Some(parts), root, MAX_DEPTH) is Err,
        visited(shown, Some(parts), root, MAX_DEPTH)->Err_0.kind is InvalidData,
{
    names::internal_by_its_parts(parts);
}

} // verus!
