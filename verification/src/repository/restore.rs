//! Restoring entries, and reading what they hold.
use crate::chunks::cdc;
use crate::chunks::chunk;
use crate::chunks::chunk::read_chunk;
use crate::chunks::hash;
use crate::chunks::hash::{ChunkHash, HashAlgorithm};
use crate::entries;
use crate::entries::{entry_hashes, Entry, FileEntry, Timestamp};
use crate::error;
use crate::error::{invalid, Error, ErrorKind};
use crate::repository::backup;
use crate::text;
use vstd::prelude::*;

verus! {

/// How many chunks of a file are read at a time.
pub const RESTORE_WINDOW: usize = 4;

/// One step of restoring an entry. Steps are taken in order; the first that fails ends them.
#[derive(Debug)]
pub enum RestoreStep {
    /// Creates the file, which must not be there.
    CreateFile,
    /// Gives the file its size in advance.
    SetLen(u64),
    /// Reads these chunks and writes them to the file in order.
    WriteChunks(Vec<ChunkHash>),
    /// Checks that as many bytes were written as the entry records.
    CheckSize(u64),
    /// Creates the directory, which must not be there.
    CreateDir,
    /// Restores the entries in the directory.
    RestoreChildren,
    /// Ends without an error of its own if an error has been recorded anywhere.
    StopIfFailed,
    /// Opens the directory, before its mode may deny that.
    OpenDir,
    /// Creates the link.
    MakeSymlink(String, bool),
    Chown((u32, u32)),
    SetTimes(Timestamp),
    SetMode(u32),
    Fail(Error),
}

/// The mathematical value of a [`RestoreStep`].
pub enum RestoreModel {
    CreateFile,
    SetLen(u64),
    WriteChunks(Seq<ChunkHash>),
    CheckSize(u64),
    CreateDir,
    RestoreChildren,
    StopIfFailed,
    OpenDir,
    MakeSymlink(Seq<char>, bool),
    Chown((u32, u32)),
    SetTimes(Timestamp),
    SetMode(u32),
    Fail(error::ErrorModel),
}

pub open spec fn restore_model(step: RestoreStep) -> RestoreModel {
    match step {
        RestoreStep::CreateFile => RestoreModel::CreateFile,
        RestoreStep::SetLen(len) => RestoreModel::SetLen(len),
        RestoreStep::WriteChunks(hashes) => RestoreModel::WriteChunks(hashes@),
        RestoreStep::CheckSize(size) => RestoreModel::CheckSize(size),
        RestoreStep::CreateDir => RestoreModel::CreateDir,
        RestoreStep::RestoreChildren => RestoreModel::RestoreChildren,
        RestoreStep::StopIfFailed => RestoreModel::StopIfFailed,
        RestoreStep::OpenDir => RestoreModel::OpenDir,
        RestoreStep::MakeSymlink(target, target_dir) => RestoreModel::MakeSymlink(
            target@,
            target_dir,
        ),
        RestoreStep::Chown(owner) => RestoreModel::Chown(owner),
        RestoreStep::SetTimes(mtime) => RestoreModel::SetTimes(mtime),
        RestoreStep::SetMode(mode) => RestoreModel::SetMode(mode),
        RestoreStep::Fail(err) => RestoreModel::Fail(err@),
    }
}

pub open spec fn restore_models(steps: Seq<RestoreStep>) -> Seq<RestoreModel> {
    steps.map_values(|step: RestoreStep| restore_model(step))
}

/// How many windows a list of chunks makes.
pub open spec fn window_count(len: nat) -> nat {
    (len + RESTORE_WINDOW - 1) as nat / (RESTORE_WINDOW as nat)
}

/// The chunks of a window.
pub open spec fn window_at(hashes: Seq<ChunkHash>, i: int) -> Seq<ChunkHash> {
    let start = i * RESTORE_WINDOW;
    let end = start + RESTORE_WINDOW;
    hashes.subrange(
        start,
        if end < hashes.len() {
            end
        } else {
            hashes.len() as int
        },
    )
}

/// A list of chunks in windows.
pub open spec fn windows(hashes: Seq<ChunkHash>) -> Seq<Seq<ChunkHash>> {
    Seq::new(window_count(hashes.len()), |i: int| window_at(hashes, i))
}

/// The chunks of windows, one window after the other.
pub open spec fn joined(windows: Seq<Seq<ChunkHash>>) -> Seq<ChunkHash>
    decreases windows.len(),
{
    if windows.len() == 0 {
        Seq::empty()
    } else {
        joined(windows.drop_last()) + windows.last()
    }
}

/// The steps behind the content of a file. Changing the owner can clear bits of the mode, so the
/// mode goes last.
pub open spec fn file_end(file: FileEntry) -> Seq<RestoreModel> {
    seq![
        RestoreModel::CheckSize(file.size_real),
        RestoreModel::Chown(file.owner),
        RestoreModel::SetTimes(file.mtime),
        RestoreModel::SetMode(file.mode),
    ]
}

/// The steps in front of the content of a file with these chunks.
pub open spec fn file_start(file: FileEntry, hashes: Seq<ChunkHash>) -> Seq<RestoreModel> {
    if hashes.len() > 1 {
        seq![RestoreModel::CreateFile, RestoreModel::SetLen(file.size_real)]
    } else {
        seq![RestoreModel::CreateFile]
    }
}

/// The steps that restore an entry.
pub open spec fn restore_plan(entry: Entry) -> Seq<RestoreModel> {
    match entry {
        Entry::File(file) => match entries::file_hashes(*file) {
            Ok(hashes) => file_start(*file, hashes) + windows(hashes).map_values(
                |window: Seq<ChunkHash>| RestoreModel::WriteChunks(window),
            ) + file_end(*file),
            Err(err) => seq![RestoreModel::CreateFile, RestoreModel::Fail(err)],
        },
        Entry::Directory(dir) => seq![
            RestoreModel::CreateDir,
            RestoreModel::RestoreChildren,
            RestoreModel::StopIfFailed,
            RestoreModel::OpenDir,
            RestoreModel::Chown(dir.owner),
            RestoreModel::SetTimes(dir.mtime),
            RestoreModel::SetMode(dir.mode),
        ],
        Entry::Symlink(link) => seq![
            RestoreModel::MakeSymlink(link.target@, link.target_dir),
            RestoreModel::Chown(link.owner),
        ],
    }
}

/// The windows of a file are its chunks, all of them, in order.
pub proof fn windows_hold_every_chunk(hashes: Seq<ChunkHash>)
    ensures
        joined(windows(hashes)) == hashes,
{
    let n = window_count(hashes.len()) as int;
    joined_windows(hashes, n);
    assert(windows(hashes).take(n) =~= windows(hashes));
    assert(n * RESTORE_WINDOW >= hashes.len());
    assert(hashes.take(hashes.len() as int) =~= hashes);
}

proof fn joined_windows(hashes: Seq<ChunkHash>, n: int)
    requires
        0 <= n <= window_count(hashes.len()),
    ensures
        joined(windows(hashes).take(n)) == hashes.take(
            if n * RESTORE_WINDOW < hashes.len() {
                n * RESTORE_WINDOW
            } else {
                hashes.len() as int
            },
        ),
    decreases n,
{
    let all = windows(hashes);
    if n == 0 {
        assert(all.take(0) =~= Seq::empty());
        assert(hashes.take(0) =~= Seq::empty());
    } else {
        joined_windows(hashes, n - 1);
        assert(all.take(n).drop_last() =~= all.take(n - 1));
        assert(all.take(n).last() == window_at(hashes, n - 1));
        let start = (n - 1) * RESTORE_WINDOW;
        let end = if n * RESTORE_WINDOW < hashes.len() {
            n * RESTORE_WINDOW
        } else {
            hashes.len() as int
        };
        assert(start < hashes.len());
        assert(hashes.take(start) + window_at(hashes, n - 1) =~= hashes.take(end));
    }
}

/// What a window of chunks holds, where `contents` are the stored forms of its chunks. The first
/// chunk that cannot be read decides.
pub open spec fn window_content(
    algorithm: HashAlgorithm,
    hashes: Seq<ChunkHash>,
    contents: Seq<Seq<u8>>,
) -> Result<Seq<u8>, error::ErrorModel>
    decreases hashes.len(),
{
    if hashes.len() == 0 {
        Ok(Seq::empty())
    } else {
        match window_content(algorithm, hashes.drop_last(), contents) {
            Ok(front) => match chunk::verified_chunk(
                algorithm,
                hashes.last(),
                contents[hashes.len() - 1],
            ) {
                Ok(data) => Ok(front + data),
                Err(err) => Err(err),
            },
            Err(err) => Err(err),
        }
    }
}

/// The stored forms of chunks.
pub open spec fn fetched(hashes: Seq<ChunkHash>, storage: Map<ChunkHash, Seq<u8>>) -> Seq<
    Seq<u8>,
> {
    hashes.map_values(|hash: ChunkHash| storage[hash])
}

/// What is written to a file, window after window. The first window that cannot be read decides.
pub open spec fn written(
    algorithm: HashAlgorithm,
    windows: Seq<Seq<ChunkHash>>,
    storage: Map<ChunkHash, Seq<u8>>,
) -> Result<Seq<u8>, error::ErrorModel>
    decreases windows.len(),
{
    if windows.len() == 0 {
        Ok(Seq::empty())
    } else {
        match written(algorithm, windows.drop_last(), storage) {
            Ok(front) => match window_content(
                algorithm,
                windows.last(),
                fetched(windows.last(), storage),
            ) {
                Ok(data) => Ok(front + data),
                Err(err) => Err(err),
            },
            Err(err) => Err(err),
        }
    }
}

/// Writing a file window by window writes what its chunks hold, neither more nor less, and fails
/// where they cannot be read.
pub proof fn windows_write_the_content(
    algorithm: HashAlgorithm,
    hashes: Seq<ChunkHash>,
    storage: Map<ChunkHash, Seq<u8>>,
)
    ensures
        written(algorithm, windows(hashes), storage) == backup::content_of(
            algorithm,
            hashes,
            storage,
        ),
{
    let all = windows(hashes);
    joined_content(algorithm, all, storage);
    windows_hold_every_chunk(hashes);
}

/// A file that was backed up restores as it was: cut anywhere into pieces that cover it, with each
/// piece stored under its hash in a form that reads back as the piece, what is written for its
/// entry is its bytes.
pub proof fn restore_undoes_backup(
    algorithm: HashAlgorithm,
    data: Seq<u8>,
    ranges: Seq<(usize, usize)>,
    storage: Map<ChunkHash, Seq<u8>>,
)
    requires
        cdc::rejoined(data, ranges) == data,
        forall|i: int|
            0 <= i < ranges.len() ==> ({
                let piece = backup::piece_at(data, #[trigger] ranges[i]);
                let hash = hash::digest(algorithm, piece);
                chunk::verified_chunk(algorithm, hash, storage[hash]) == Ok::<
                    _,
                    error::ErrorModel,
                >(piece)
            }),
    ensures
        written(
            algorithm,
            windows(backup::piece_hashes(algorithm, data, ranges)),
            storage,
        ) == Ok::<_, error::ErrorModel>(data),
{
    backup::backup_restores(algorithm, data, ranges, storage);
    windows_write_the_content(
        algorithm,
        backup::piece_hashes(algorithm, data, ranges),
        storage,
    );
}

proof fn joined_content(
    algorithm: HashAlgorithm,
    all: Seq<Seq<ChunkHash>>,
    storage: Map<ChunkHash, Seq<u8>>,
)
    ensures
        written(algorithm, all, storage) == backup::content_of(algorithm, joined(all), storage),
    decreases all.len(),
{
    if all.len() > 0 {
        joined_content(algorithm, all.drop_last(), storage);
        let last = all.last();
        fetched_content(algorithm, last, fetched(last, storage), storage);
        content_of_both(algorithm, joined(all.drop_last()), last, storage);
    }
}

proof fn fetched_content(
    algorithm: HashAlgorithm,
    hashes: Seq<ChunkHash>,
    contents: Seq<Seq<u8>>,
    storage: Map<ChunkHash, Seq<u8>>,
)
    requires
        contents.len() >= hashes.len(),
        forall|i: int| 0 <= i < hashes.len() ==> #[trigger] contents[i] == storage[hashes[i]],
    ensures
        window_content(algorithm, hashes, contents) == backup::content_of(
            algorithm,
            hashes,
            storage,
        ),
    decreases hashes.len(),
{
    if hashes.len() > 0 {
        fetched_content(algorithm, hashes.drop_last(), contents, storage);
        assert(contents[hashes.len() - 1] == storage[hashes.last()]);
    }
}

proof fn content_of_both(
    algorithm: HashAlgorithm,
    front: Seq<ChunkHash>,
    back: Seq<ChunkHash>,
    storage: Map<ChunkHash, Seq<u8>>,
)
    ensures
        backup::content_of(algorithm, front + back, storage) == match backup::content_of(
            algorithm,
            front,
            storage,
        ) {
            Ok(first) => match backup::content_of(algorithm, back, storage) {
                Ok(second) => Ok(first + second),
                Err(err) => Err(err),
            },
            Err(err) => Err(err),
        },
    decreases back.len(),
{
    if back.len() == 0 {
        assert(front + back =~= front);
        if let Ok(first) = backup::content_of(algorithm, front, storage) {
            assert(first + Seq::<u8>::empty() =~= first);
        }
    } else {
        content_of_both(algorithm, front, back.drop_last(), storage);
        assert((front + back).drop_last() =~= front + back.drop_last());
        assert((front + back).last() == back.last());
        if let Ok(first) = backup::content_of(algorithm, front, storage) {
            if let Ok(second) = backup::content_of(algorithm, back.drop_last(), storage) {
                if let Ok(data) = chunk::verified_chunk(
                    algorithm,
                    back.last(),
                    storage[back.last()],
                ) {
                    assert((first + second) + data =~= first + (second + data));
                }
            }
        }
    }
}

/// Whatever is restored, the mode of a file or a directory is set last, behind the owner.
pub proof fn mode_goes_last(entry: Entry)
    ensures
        match entry {
            Entry::File(file) => entries::file_hashes(*file) is Ok ==> restore_plan(entry).last()
                == RestoreModel::SetMode(file.mode),
            Entry::Directory(dir) => restore_plan(entry).last() == RestoreModel::SetMode(dir.mode),
            Entry::Symlink(_) => true,
        },
{
    if let Entry::File(file) = entry {
        if let Ok(hashes) = entries::file_hashes(*file) {
            let front = file_start(*file, hashes) + windows(hashes).map_values(
                |window: Seq<ChunkHash>| RestoreModel::WriteChunks(window),
            );
            assert(restore_plan(entry).last() == file_end(*file)[3]);
        }
    }
}

/// The steps that restore an entry.
pub fn restore_steps(entry: &Entry) -> (steps: Vec<RestoreStep>)
    ensures
        restore_models(steps@) == restore_plan(*entry),
        match entry {
            Entry::Directory(dir) => {
                &&& steps@.len() == 7
                &&& steps@[0] is CreateDir
                &&& steps@[1] is RestoreChildren
                &&& steps@[2] is StopIfFailed
                &&& steps@[3] is OpenDir
                &&& steps@[4] == RestoreStep::Chown(dir.owner)
                &&& steps@[5] == RestoreStep::SetTimes(dir.mtime)
                &&& steps@[6] == RestoreStep::SetMode(dir.mode)
            },
            Entry::Symlink(link) => {
                &&& steps@.len() == 2
                &&& steps@[0] is MakeSymlink
                &&& steps@[0]->MakeSymlink_0@ == link.target@
                &&& steps@[0]->MakeSymlink_1 == link.target_dir
                &&& steps@[1] == RestoreStep::Chown(link.owner)
            },
            Entry::File(file) => match entries::file_hashes(**file) {
                Err(err) => {
                    &&& steps@.len() == 2
                    &&& steps@[0] is CreateFile
                    &&& steps@[1] is Fail
                    &&& steps@[1]->Fail_0@ == err
                },
                Ok(hashes) => {
                    let start: int = if hashes.len() > 1 {
                        2
                    } else {
                        1
                    };
                    let end = start + (hashes.len() + 3) / 4;
                    &&& steps@.len() == end + 4
                    &&& steps@[0] is CreateFile
                    &&& hashes.len() > 1 ==> steps@[1] == RestoreStep::SetLen(file.size_real)
                    &&& forall|i: int|
                        start <= i < end ==> (#[trigger] steps@[i]) is WriteChunks
                            && steps@[i]->WriteChunks_0@ == hashes.subrange(
                            4 * (i - start),
                            if 4 * (i - start) + 4 < hashes.len() {
                                4 * (i - start) + 4
                            } else {
                                hashes.len() as int
                            },
                        )
                    &&& steps@[end] == RestoreStep::CheckSize(file.size_real)
                    &&& steps@[end + 1] == RestoreStep::Chown(file.owner)
                    &&& steps@[end + 2] == RestoreStep::SetTimes(file.mtime)
                    &&& steps@[end + 3] == RestoreStep::SetMode(file.mode)
                },
            },
        },
{
    let mut steps: Vec<RestoreStep> = Vec::new();
    match entry {
        Entry::File(file) => {
            steps.push(RestoreStep::CreateFile);
            let hashes = match entry_hashes(file) {
                Ok(hashes) => hashes,
                Err(err) => {
                    steps.push(RestoreStep::Fail(err));
                    assert(restore_models(steps@) =~= restore_plan(*entry));
                    assert(steps@[1]->Fail_0@ == entries::file_hashes(**file)->Err_0);
                    return steps;
                },
            };
            if hashes.len() > 1 {
                steps.push(RestoreStep::SetLen(file.size_real));
            }
            let ghost start = file_start(**file, hashes@);
            let ghost writes = windows(hashes@).map_values(
                |window: Seq<ChunkHash>| RestoreModel::WriteChunks(window),
            );
            assert(restore_models(steps@) =~= start);
            let mut pos: usize = 0;
            let mut i: usize = 0;
            assert(start + writes.take(0) =~= start);
            while pos < hashes.len()
                invariant
                    i <= window_count(hashes@.len()),
                    pos == if i * RESTORE_WINDOW < hashes@.len() {
                        i * RESTORE_WINDOW
                    } else {
                        hashes@.len() as int
                    },
                    writes == windows(hashes@).map_values(
                        |window: Seq<ChunkHash>| RestoreModel::WriteChunks(window),
                    ),
                    restore_models(steps@) == start + writes.take(i as int),
                decreases hashes@.len() - pos,
            {
                let end: usize = if hashes.len() - pos > RESTORE_WINDOW {
                    pos + RESTORE_WINDOW
                } else {
                    hashes.len()
                };
                let window = copy_hashes(&hashes, pos, end);
                let ghost before = steps@;
                assert(window@ =~= window_at(hashes@, i as int));
                steps.push(RestoreStep::WriteChunks(window));
                proof {
                    assert(restore_models(steps@) =~= restore_models(before).push(
                        RestoreModel::WriteChunks(window@),
                    ));
                    assert(writes[i as int] == RestoreModel::WriteChunks(window@));
                    assert(start + writes.take(i + 1) =~= (start + writes.take(i as int)).push(
                        writes[i as int],
                    ));
                }
                pos = end;
                i = i + 1;
            }
            assert(writes.take(i as int) =~= writes);
            let ghost before = steps@;
            steps.push(RestoreStep::CheckSize(file.size_real));
            steps.push(RestoreStep::Chown(file.owner));
            steps.push(RestoreStep::SetTimes(file.mtime));
            steps.push(RestoreStep::SetMode(file.mode));
            assert(restore_models(steps@) =~= restore_models(before) + file_end(**file));
            proof {
                let count = window_count(hashes@.len()) as int;
                assert(count == (hashes@.len() + 3) / 4);
                assert(writes.len() == count);
                assert(restore_models(before) =~= start + writes);
                assert forall|k: int| start.len() <= k < start.len() + count implies (
                #[trigger] steps@[k]) is WriteChunks && steps@[k]->WriteChunks_0@
                    == hashes@.subrange(
                    4 * (k - start.len()),
                    if 4 * (k - start.len()) + 4 < hashes@.len() {
                        4 * (k - start.len()) + 4
                    } else {
                        hashes@.len() as int
                    },
                ) by {
                    assert(restore_models(steps@)[k] == writes[k - start.len()]);
                    assert(restore_models(steps@)[k] == restore_model(steps@[k]));
                    assert(writes[k - start.len()] == RestoreModel::WriteChunks(
                        window_at(hashes@, k - start.len()),
                    ));
                }
                assert(restore_model(steps@[0]) == restore_models(steps@)[0]);
                assert(restore_models(steps@)[0] == start[0]);
                if hashes@.len() > 1 {
                    assert(restore_model(steps@[1]) == restore_models(steps@)[1]);
                    assert(restore_models(steps@)[1] == start[1]);
                }
            }
        },
        Entry::Directory(dir) => {
            steps.push(RestoreStep::CreateDir);
            steps.push(RestoreStep::RestoreChildren);
            steps.push(RestoreStep::StopIfFailed);
            steps.push(RestoreStep::OpenDir);
            steps.push(RestoreStep::Chown(dir.owner));
            steps.push(RestoreStep::SetTimes(dir.mtime));
            steps.push(RestoreStep::SetMode(dir.mode));
            assert(restore_models(steps@) =~= restore_plan(*entry));
        },
        Entry::Symlink(link) => {
            steps.push(RestoreStep::MakeSymlink(link.target.clone(), link.target_dir));
            steps.push(RestoreStep::Chown(link.owner));
            assert(restore_models(steps@) =~= restore_plan(*entry));
        },
    }
    steps
}

fn copy_hashes(hashes: &Vec<ChunkHash>, start: usize, end: usize) -> (copy: Vec<ChunkHash>)
    requires
        start <= end <= hashes@.len(),
    ensures
        copy@ == hashes@.subrange(start as int, end as int),
{
    let mut copy: Vec<ChunkHash> = Vec::new();
    let mut i: usize = start;
    while i < end
        invariant
            start <= i <= end <= hashes@.len(),
            copy@ == hashes@.subrange(start as int, i as int),
        decreases end - i,
    {
        copy.push(hashes[i]);
        assert(copy@ =~= hashes@.subrange(start as int, i + 1));
        i = i + 1;
    }
    copy
}

/// Puts a window of chunks together. `contents` are the stored forms of its chunks.
pub fn read_window(
    algorithm: HashAlgorithm,
    hashes: &Vec<ChunkHash>,
    contents: &Vec<Vec<u8>>,
) -> (data: Result<Vec<u8>, Error>)
    requires
        contents@.len() == hashes@.len(),
    ensures
        chunk::bytes_model(data) == window_content(
            algorithm,
            hashes@,
            contents@.map_values(|content: Vec<u8>| content@),
        ),
{
    let ghost stored = contents@.map_values(|content: Vec<u8>| content@);
    let mut data: Vec<u8> = Vec::new();
    let mut i: usize = 0;
    while i < hashes.len()
        invariant
            i <= hashes@.len() == contents@.len(),
            stored == contents@.map_values(|content: Vec<u8>| content@),
            window_content(algorithm, hashes@.take(i as int), stored) == Ok::<
                _,
                error::ErrorModel,
            >(data@),
        decreases hashes@.len() - i,
    {
        let ghost front = hashes@.take(i + 1);
        assert(front.drop_last() =~= hashes@.take(i as int));
        assert(front.last() == hashes@[i as int]);
        assert(stored[i as int] == contents@[i as int]@);
        match read_chunk(algorithm, &hashes[i], contents[i].as_slice()) {
            Ok(chunk) => {
                let ghost before = data@;
                data.extend_from_slice(chunk.as_slice());
                assert(data@ =~= before + chunk@);
            },
            Err(err) => {
                proof {
                    window_fails(algorithm, hashes@, stored, i as int);
                }
                return Err(err);
            },
        }
        i = i + 1;
    }
    assert(hashes@.take(i as int) =~= hashes@);
    Ok(data)
}

proof fn window_fails(
    algorithm: HashAlgorithm,
    hashes: Seq<ChunkHash>,
    contents: Seq<Seq<u8>>,
    i: int,
)
    requires
        0 <= i < hashes.len(),
        window_content(algorithm, hashes.take(i + 1), contents) is Err,
    ensures
        window_content(algorithm, hashes, contents) == window_content(
            algorithm,
            hashes.take(i + 1),
            contents,
        ),
    decreases hashes.len(),
{
    if i + 1 == hashes.len() {
        assert(hashes.take(i + 1) =~= hashes);
    } else {
        assert(hashes.drop_last().take(i + 1) =~= hashes.take(i + 1));
        window_fails(algorithm, hashes.drop_last(), contents, i);
    }
}

/// Refuses a file that got fewer or more bytes than its entry records. Fewer would leave zeros in
/// it.
pub fn check_restored(shown: &str, written: u64, size: u64) -> (result: Result<(), Error>)
    ensures
        result is Ok <==> written == size,
        result is Err ==> result->Err_0@ == error::invalid_model(
            shown@ + " restored "@ + text::decimal_text(written as nat) + " bytes of the "@
                + text::decimal_text(size as nat) + " recorded"@,
        ),
{
    if written == size {
        return Ok(());
    }
    let got = text::decimal(written);
    let recorded = text::decimal(size);
    let mut message = text::join4(shown, " restored ", got.as_str(), " bytes of the ");
    message.append(recorded.as_str());
    message.append(" recorded");
    Err(invalid(message))
}

/// The chunks of a file entry and the size of its content, for reading it.
pub fn file_content(entry: &Entry) -> (content: Result<(Vec<ChunkHash>, u64), Error>)
    ensures
        match entry {
            Entry::File(file) => match (content, entries::file_hashes(**file)) {
                (Ok((hashes, size)), Ok(hashes_spec)) => hashes@ == hashes_spec && size
                    == file.size_real,
                (Err(err), Err(err_spec)) => err@ == err_spec,
                _ => false,
            },
            _ => content is Err && content->Err_0@ == error::invalid_model("entry is not a file"@),
        },
{
    match entry {
        Entry::File(file) => match entry_hashes(file) {
            Ok(hashes) => Ok((hashes, file.size_real)),
            Err(err) => Err(err),
        },
        _ => Err(invalid("entry is not a file".to_owned())),
    }
}

/// Decides whether entries may be restored over a destination. `look` is what looking at it gave:
/// whether it is a directory, and not a link to one.
pub fn check_destination(look: Result<bool, Error>) -> (result: Result<(), Error>)
    ensures
        match look {
            Ok(true) => result is Ok,
            Ok(false) => result is Err && result->Err_0@ == error::error_model(
                ErrorKind::InvalidInput,
                "restore destination must be a directory, not a file or symlink"@,
            ),
            Err(err) => if err.kind == ErrorKind::NotFound {
                result is Ok
            } else {
                result is Err && result->Err_0 == err
            },
        },
{
    match look {
        Ok(true) => Ok(()),
        Ok(false) => Err(
            Error::new(
                ErrorKind::InvalidInput,
                "restore destination must be a directory, not a file or symlink".to_owned(),
            ),
        ),
        Err(err) => if err.kind == ErrorKind::NotFound {
            Ok(())
        } else {
            Err(err)
        },
    }
}

/// What an operation gave, where one kind of error is no error: a chunk to delete that is not
/// there, an owner that an unprivileged restore may not set.
pub fn tolerate(result: Result<(), Error>, kind: ErrorKind) -> (tolerated: Result<(), Error>)
    ensures
        match result {
            Ok(()) => tolerated is Ok,
            Err(err) => if err.kind == kind {
                tolerated is Ok
            } else {
                tolerated is Err && tolerated->Err_0 == err
            },
        },
{
    match result {
        Ok(()) => Ok(()),
        Err(err) => if err.kind == kind {
            Ok(())
        } else {
            Err(err)
        },
    }
}

/// The mode that a directory of an earlier restore needs so that it can be removed, if it lacks
/// it: its owner has to be able to read, write and search it.
pub fn removable_mode(mode: u32) -> (needed: Option<u32>)
    ensures
        needed == if mode & 0o700 == 0o700 {
            None
        } else {
            Some(mode | 0o700)
        },
        needed is Some ==> needed->0 & 0o700 == 0o700,
{
    if mode & 0o700 == 0o700 {
        None
    } else {
        assert((mode | 0o700) & 0o700 == 0o700) by (bit_vector);
        Some(mode | 0o700)
    }
}

/// What a window holds is what its chunks hold, one behind the other, if all of them are what
/// their hashes name; else the first that is not decides.
pub proof fn window_by_its_chunks(
    algorithm: HashAlgorithm,
    hashes: Seq<ChunkHash>,
    contents: Seq<Seq<u8>>,
    pieces: Seq<Seq<u8>>,
)
    requires
        contents.len() == hashes.len(),
        pieces.len() <= hashes.len(),
        forall|i: int|
            0 <= i < pieces.len() ==> chunk::verified_chunk(
                algorithm,
                hashes[i],
                contents[i],
            ) == Ok::<_, error::ErrorModel>(#[trigger] pieces[i]),
        pieces.len() < hashes.len() ==> chunk::verified_chunk(
            algorithm,
            hashes[pieces.len() as int],
            contents[pieces.len() as int],
        ) is Err,
    ensures
        window_content(algorithm, hashes, contents) == if pieces.len() == hashes.len() {
            Ok(pieces.flatten())
        } else {
            Err(
                chunk::verified_chunk(
                    algorithm,
                    hashes[pieces.len() as int],
                    contents[pieces.len() as int],
                )->Err_0,
            )
        },
    decreases hashes.len(),
{
    if pieces.len() < hashes.len() {
        let n = pieces.len() as int;
        let front = hashes.take(n + 1);
        assert(front.drop_last() =~= hashes.take(n));
        window_of_good_chunks(algorithm, hashes.take(n), contents, pieces);
        assert(front.last() == hashes[n]);
        window_fails(algorithm, hashes, contents, n);
    } else {
        window_of_good_chunks(algorithm, hashes, contents, pieces);
    }
}

proof fn window_of_good_chunks(
    algorithm: HashAlgorithm,
    hashes: Seq<ChunkHash>,
    contents: Seq<Seq<u8>>,
    pieces: Seq<Seq<u8>>,
)
    requires
        contents.len() >= hashes.len(),
        pieces.len() == hashes.len(),
        forall|i: int|
            0 <= i < pieces.len() ==> chunk::verified_chunk(
                algorithm,
                hashes[i],
                contents[i],
            ) == Ok::<_, error::ErrorModel>(#[trigger] pieces[i]),
    ensures
        window_content(algorithm, hashes, contents) == Ok::<_, error::ErrorModel>(
            pieces.flatten(),
        ),
    decreases hashes.len(),
{
    pieces.lemma_flatten_and_flatten_alt_are_equivalent();
    if hashes.len() > 0 {
        let front = pieces.drop_last();
        assert forall|i: int| 0 <= i < front.len() implies chunk::verified_chunk(
            algorithm,
            hashes.drop_last()[i],
            contents[i],
        ) == Ok::<_, error::ErrorModel>(#[trigger] front[i]) by {
            assert(front[i] == pieces[i]);
        }
        window_of_good_chunks(algorithm, hashes.drop_last(), contents, front);
        front.lemma_flatten_and_flatten_alt_are_equivalent();
        assert(pieces[pieces.len() - 1] == pieces.last());
    }
}

/// The windows of a file are made of chunks that its list holds, so of chunks that an index counts
/// which counts the list.
pub proof fn windows_hold_listed_chunks(hashes: Seq<ChunkHash>, w: int, k: int)
    requires
        0 <= w < windows(hashes).len(),
        0 <= k < windows(hashes)[w].len(),
    ensures
        windows(hashes).len() == (hashes.len() + 3) / 4,
        4 * w + k < hashes.len(),
        windows(hashes)[w][k] == hashes[4 * w + k],
        hashes.contains(windows(hashes)[w][k]),
{
    assert(hashes.contains(hashes[4 * w + k]));
}

} // verus!
