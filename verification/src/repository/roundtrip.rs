//! That an archive restores as the tree that it was made from.
use crate::chunks::cdc;
use crate::chunks::chunk;
use crate::chunks::hash;
use crate::chunks::hash::{ChunkHash, HashAlgorithm};
use crate::entries;
use crate::entries::{Entry, FileEntry, Timestamp};
use crate::error;
use crate::migrate;
use crate::repository::backup;
use crate::repository::backup::Streamed;
use crate::repository::names;
use crate::repository::paths;
use crate::repository::restore;
use crate::repository::restore::RestoreModel;
use crate::tree;
use crate::tree::{GroupModel, Tree};
use vstd::prelude::*;

verus! {

/// A path below the root of a backup, or below the destination of a restore.
pub type Path = Seq<Option<Seq<char>>>;

/// What stands at a path.
pub enum Item {
    File(Seq<u8>, u32, Timestamp),
    Directory(u32, Timestamp),
    /// A link to a target.
    Symlink(Seq<char>),
}

/// What the steps of a restore have made so far at one path.
pub struct Making {
    pub kind: Kind,
    /// What was written to the file.
    pub bytes: Seq<u8>,
    /// The size that the file was given in advance.
    pub len: nat,
    pub mode: Option<u32>,
    pub mtime: Option<Timestamp>,
    pub failed: bool,
}

pub enum Kind {
    Nothing,
    File,
    Directory,
    Symlink(Seq<char>),
}

pub open spec fn nothing_made() -> Making {
    Making {
        kind: Kind::Nothing,
        bytes: Seq::empty(),
        len: 0,
        mode: None,
        mtime: None,
        failed: false,
    }
}

/// What has been made after a step. Chunks come from `storage`. The owner is left aside: whether
/// it can be set depends on who restores. But changing it can clear bits of the mode, so the mode
/// is not known then; and the time is not known of a file that is written to, or of a directory
/// that entries are restored into.
pub open spec fn making_after(
    step: RestoreModel,
    making: Making,
    algorithm: HashAlgorithm,
    storage: Map<ChunkHash, Seq<u8>>,
) -> Making {
    match step {
        RestoreModel::CreateFile => Making { kind: Kind::File, mtime: None, ..making },
        RestoreModel::SetLen(len) => Making { len: len as nat, mtime: None, ..making },
        RestoreModel::WriteChunks(hashes) => match restore::window_content(
            algorithm,
            hashes,
            restore::fetched(hashes, storage),
        ) {
            Ok(data) => Making { bytes: making.bytes + data, mtime: None, ..making },
            Err(_) => Making { failed: true, ..making },
        },
        RestoreModel::CheckSize(size) => Making {
            failed: making.failed || making.bytes.len() != size,
            ..making
        },
        RestoreModel::CreateDir => Making { kind: Kind::Directory, mtime: None, ..making },
        RestoreModel::RestoreChildren => Making { mtime: None, ..making },
        RestoreModel::Chown(_) => Making { mode: None, ..making },
        RestoreModel::MakeSymlink(target, _) => Making { kind: Kind::Symlink(target), ..making },
        RestoreModel::SetTimes(mtime) => Making { mtime: Some(mtime), ..making },
        RestoreModel::SetMode(mode) => Making { mode: Some(mode), ..making },
        RestoreModel::Fail(_) => Making { failed: true, ..making },
        _ => making,
    }
}

pub open spec fn making(
    steps: Seq<RestoreModel>,
    start: Making,
    algorithm: HashAlgorithm,
    storage: Map<ChunkHash, Seq<u8>>,
) -> Making
    decreases steps.len(),
{
    if steps.len() == 0 {
        start
    } else {
        making_after(
            steps.last(),
            making(steps.drop_last(), start, algorithm, storage),
            algorithm,
            storage,
        )
    }
}

/// What steps make, if none of them fails. A file that was given more bytes in advance than were
/// written to it is not what it should be.
pub open spec fn made(
    steps: Seq<RestoreModel>,
    algorithm: HashAlgorithm,
    storage: Map<ChunkHash, Seq<u8>>,
) -> Option<Item> {
    let end = making(steps, nothing_made(), algorithm, storage);
    if end.failed {
        None
    } else {
        match end.kind {
            Kind::Nothing => None,
            Kind::File => if end.mode is Some && end.mtime is Some && end.len <= end.bytes.len() {
                Some(Item::File(end.bytes, end.mode->0, end.mtime->0))
            } else {
                None
            },
            Kind::Directory => if end.mode is Some && end.mtime is Some {
                Some(Item::Directory(end.mode->0, end.mtime->0))
            } else {
                None
            },
            Kind::Symlink(target) => Some(Item::Symlink(target)),
        }
    }
}

/// What restoring an entry into a directory makes, path by path.
pub open spec fn restored_entry(
    entry: Entry,
    dir: Path,
    algorithm: HashAlgorithm,
    storage: Map<ChunkHash, Seq<u8>>,
) -> Seq<(Path, Option<Item>)>
    decreases entry,
{
    let path = dir.push(Some(paths::entry_name(entry)));
    seq![(path, made(restore::restore_plan(entry), algorithm, storage))] + match entry {
        Entry::Directory(sub) => restored(sub.entries@, path, algorithm, storage),
        _ => Seq::empty(),
    }
}

/// What restoring entries into a directory makes, path by path.
pub open spec fn restored(
    entries: Seq<Entry>,
    dir: Path,
    algorithm: HashAlgorithm,
    storage: Map<ChunkHash, Seq<u8>>,
) -> Seq<(Path, Option<Item>)>
    decreases entries,
{
    if entries.len() == 0 {
        Seq::empty()
    } else {
        restored(entries.drop_last(), dir, algorithm, storage) + restored_entry(
            entries.last(),
            dir,
            algorithm,
            storage,
        )
    }
}

/// Whether a list holds what stands at each path in a directory, each path once, and nothing else.
pub open spec fn lists_items(
    list: Seq<(Path, Option<Item>)>,
    source: Map<Path, Item>,
    dir: Path,
) -> bool {
    &&& forall|i: int|
        0 <= i < list.len() ==> {
            &&& source.contains_key((#[trigger] list[i]).0)
            &&& tree::lies_in(list[i].0, dir)
            &&& list[i].0 != dir
            &&& list[i].1 == Some(source[list[i].0])
        }
    &&& forall|i: int, j: int|
        0 <= i < j < list.len() ==> (#[trigger] list[i]).0 != (#[trigger] list[j]).0
    &&& forall|path: Path| #[trigger]
        source.contains_key(path) && tree::lies_in(path, dir) && path != dir ==> is_listed(
            list,
            path,
        )
}

pub open spec fn is_listed(list: Seq<(Path, Option<Item>)>, path: Path) -> bool {
    exists|i: int| 0 <= i < list.len() && (#[trigger] list[i]).0 == path
}

/// Whether a source is a tree that an archive can hold: names are Unicode and none stands for
/// another place, what a path lies in is a directory, nothing is a repository's own, and nothing
/// is nested too deep.
pub open spec fn is_tree(source: Map<Path, Item>) -> bool {
    forall|path: Path| #[trigger]
        source.contains_key(path) ==> {
            &&& 0 < path.len() <= 256
            &&& path.last() is Some
            &&& path.last() != Some("."@) && path.last() != Some(".."@) && path.last() != Some("/"@)
            &&& !path.contains(Some(".ddup-bak"@)) && !path.contains(Some(".ddup-bak-restore"@))
            &&& path.len() > 1 ==> source.contains_key(path.drop_last())
                && source[path.drop_last()] is Directory
        }
}

/// Whether a walk comes to every path of a source once.
pub open spec fn walks(order: Seq<Path>, source: Map<Path, Item>) -> bool {
    &&& order.no_duplicates()
    &&& forall|path: Path| #[trigger] order.contains(path) <==> source.contains_key(path)
}

/// Whether an entry is that of an item. The chunks of a file are in storage and hold its bytes.
pub open spec fn describes(
    entry: Tree,
    item: Item,
    name: Seq<char>,
    algorithm: HashAlgorithm,
    storage: Map<ChunkHash, Seq<u8>>,
) -> bool {
    match (entry, item) {
        (Tree::File(file), Item::File(bytes, mode, mtime)) => {
            &&& file.name@ == name
            &&& file.mode == mode
            &&& file.mtime == mtime
            &&& file.size_real == bytes.len()
            &&& entries::file_hashes(file) is Ok
            &&& backup::content_of(algorithm, entries::file_hashes(file)->Ok_0, storage) == Ok::<
                _,
                error::ErrorModel,
            >(bytes)
        },
        (Tree::Directory(own, own_mode, _, own_mtime, _), Item::Directory(mode, mtime)) => own
            == name && own_mode == mode && own_mtime == mtime,
        (Tree::Symlink(link), Item::Symlink(target)) => link.name@ == name && link.target@
            == target,
        _ => false,
    }
}

/// What a walk gathers: each path's entry under the path's directory.
pub open spec fn walked(order: Seq<Path>, found: Map<Path, Tree>) -> Seq<GroupModel>
    decreases order.len(),
{
    if order.len() == 0 {
        Seq::empty()
    } else {
        tree::added(
            walked(order.drop_last(), found),
            order.last().drop_last(),
            found[order.last()],
        )
    }
}

/// The paths of a walk that lie right in a directory.
spec fn kids(order: Seq<Path>, dir: Path) -> Seq<Path>
    decreases order.len(),
{
    if order.len() == 0 {
        Seq::empty()
    } else if order.last().drop_last() == dir {
        kids(order.drop_last(), dir).push(order.last())
    } else {
        kids(order.drop_last(), dir)
    }
}

spec fn entries_at(paths: Seq<Path>, found: Map<Path, Tree>) -> Seq<Tree> {
    paths.map_values(|path: Path| found[path])
}

spec fn longest(order: Seq<Path>) -> nat
    decreases order.len(),
{
    if order.len() == 0 {
        0
    } else if order.last().len() > longest(order.drop_last()) {
        order.last().len()
    } else {
        longest(order.drop_last())
    }
}

proof fn longest_bounds(order: Seq<Path>, path: Path)
    requires
        order.contains(path),
    ensures
        path.len() <= longest(order),
    decreases order.len(),
{
    let i = choose|i: int| 0 <= i < order.len() && order[i] == path;
    if i < order.len() - 1 {
        assert(order.drop_last()[i] == path);
        assert(order.drop_last().contains(path));
        longest_bounds(order.drop_last(), path);
    }
}

proof fn kids_of(order: Seq<Path>, dir: Path)
    requires
        order.no_duplicates(),
    ensures
        kids(order, dir).no_duplicates(),
        forall|i: int|
            0 <= i < kids(order, dir).len() ==> order.contains(#[trigger] kids(order, dir)[i])
                && kids(order, dir)[i].drop_last() == dir,
        forall|path: Path|
            #[trigger] order.contains(path) && path.drop_last() == dir ==> kids(
                order,
                dir,
            ).contains(path),
    decreases order.len(),
{
    if order.len() > 0 {
        let front = order.drop_last();
        assert forall|i: int, j: int|
            0 <= i < front.len() && 0 <= j < front.len() && i != j implies front[i] != front[j] by {
            assert(front[i] == order[i] && front[j] == order[j]);
        }
        kids_of(front, dir);
        let some = kids(front, dir);
        let all = kids(order, dir);
        assert forall|i: int| 0 <= i < all.len() implies order.contains(#[trigger] all[i])
            && all[i].drop_last() == dir by {
            if i < some.len() {
                assert(all[i] == some[i]);
                let j = choose|j: int| 0 <= j < front.len() && front[j] == some[i];
                assert(order[j] == all[i]);
            } else {
                assert(order[order.len() - 1] == all[i]);
            }
        }
        assert forall|i: int, j: int|
            0 <= i < all.len() && 0 <= j < all.len() && i != j implies all[i] != all[j] by {
            if i < some.len() && j < some.len() {
                assert(all[i] == some[i] && all[j] == some[j]);
            } else {
                let k = if i < some.len() {
                    i
                } else {
                    j
                };
                assert(front.contains(some[k]));
                let m = choose|m: int| 0 <= m < front.len() && front[m] == some[k];
                assert(order[m] == some[k]);
                assert(order[m] != order[order.len() - 1]);
            }
        }
        assert forall|path: Path|
            #[trigger] order.contains(path) && path.drop_last() == dir implies all.contains(
            path,
        ) by {
            let m = choose|m: int| 0 <= m < order.len() && order[m] == path;
            if m < front.len() {
                assert(front[m] == path);
                assert(front.contains(path));
                let i = choose|i: int| 0 <= i < some.len() && some[i] == path;
                assert(all[i] == path);
            } else {
                assert(all[all.len() - 1] == path);
            }
        }
    }
}

proof fn walked_gathers(order: Seq<Path>, found: Map<Path, Tree>, dir: Path)
    ensures
        tree::gathered_for(walked(order, found), dir) == entries_at(kids(order, dir), found),
        tree::distinct_paths(walked(order, found)),
    decreases order.len(),
{
    if order.len() == 0 {
        assert(entries_at(kids(order, dir), found) =~= Seq::empty());
    } else {
        let front = order.drop_last();
        walked_gathers(front, found, dir);
        let groups = walked(front, found);
        tree::adding_keeps_paths_distinct(groups, order.last().drop_last(), found[order.last()]);
        tree::gathered_after_adding(
            groups,
            order.last().drop_last(),
            found[order.last()],
            dir,
        );
        assert(tree::gathered_for(walked(order, found), dir) =~= entries_at(
            kids(order, dir),
            found,
        ));
    }
}

/// Every group of a walk is for the directory of a path that was walked.
proof fn walked_groups(order: Seq<Path>, found: Map<Path, Tree>, i: int)
    requires
        0 <= i < walked(order, found).len(),
    ensures
        exists|path: Path| #[trigger]
            order.contains(path) && path.drop_last() == walked(order, found)[i].0,
    decreases order.len(),
{
    let front = order.drop_last();
    let groups = walked(front, found);
    let more = walked(order, found);
    let last = order.last();
    assert(order[order.len() - 1] == last);
    assert(order.contains(last));
    tree::find_group_result(groups, last.drop_last(), 0);
    if i < groups.len() && more[i].0 == groups[i].0 {
        walked_groups(front, found, i);
        let path = choose|path: Path| #[trigger]
            front.contains(path) && path.drop_last() == groups[i].0;
        let j = choose|j: int| 0 <= j < front.len() && front[j] == path;
        assert(order[j] == path);
        assert(order.contains(path));
    } else {
        assert(more[i].0 == last.drop_last());
    }
}

proof fn walked_well(order: Seq<Path>, source: Map<Path, Item>, found: Map<Path, Tree>, algorithm:
    HashAlgorithm, storage: Map<ChunkHash, Seq<u8>>)
    requires
        is_tree(source),
        walks(order, source),
        forall|path: Path| #[trigger]
            source.contains_key(path) ==> describes(
                found[path],
                source[path],
                path.last()->0,
                algorithm,
                storage,
            ),
    ensures
        tree::well_gathered(walked(order, found)),
        tree::within_depth(walked(order, found), Seq::empty(), longest(order) + 1),
{
    let groups = walked(order, found);
    walked_gathers(order, found, Seq::empty());
    assert forall|i: int| 0 <= i < groups.len() implies tree::siblings_differ(
        (#[trigger] groups[i]).1,
    ) by {
        let dir = groups[i].0;
        walked_gathers(order, found, dir);
        tree::gathered_for_group(groups, i);
        kids_of(order, dir);
        let paths = kids(order, dir);
        let inside = groups[i].1;
        assert(inside == entries_at(paths, found));
        assert forall|a: int, b: int|
            0 <= a < b < inside.len() && inside[a] is Directory
                && inside[b] is Directory implies (#[trigger] inside[a])->Directory_0 != (
        #[trigger] inside[b])->Directory_0 by {
            assert(order.contains(paths[a]) && order.contains(paths[b]));
            assert(source.contains_key(paths[a]) && source.contains_key(paths[b]));
            assert(paths[a] != paths[b]);
            if inside[a]->Directory_0 == inside[b]->Directory_0 {
                assert(paths[a] =~= paths[a].drop_last().push(paths[a].last()));
                assert(paths[b] =~= paths[b].drop_last().push(paths[b].last()));
            }
        }
    }
    assert forall|i: int|
        0 <= i < groups.len() && tree::lies_in((#[trigger] groups[i]).0, Seq::empty()) implies
        groups[i].0.len() < longest(order) + 1 by {
        walked_groups(order, found, i);
        let path = choose|path: Path| #[trigger]
            order.contains(path) && path.drop_last() == groups[i].0;
        longest_bounds(order, path);
        assert(source.contains_key(path));
    }
}

proof fn making_concat(
    a: Seq<RestoreModel>,
    b: Seq<RestoreModel>,
    start: Making,
    algorithm: HashAlgorithm,
    storage: Map<ChunkHash, Seq<u8>>,
)
    ensures
        making(a + b, start, algorithm, storage) == making(
            b,
            making(a, start, algorithm, storage),
            algorithm,
            storage,
        ),
    decreases b.len(),
{
    if b.len() == 0 {
        assert(a + b =~= a);
    } else {
        assert((a + b).drop_last() =~= a + b.drop_last());
        making_concat(a, b.drop_last(), start, algorithm, storage);
    }
}

proof fn making_of_one(
    step: RestoreModel,
    start: Making,
    algorithm: HashAlgorithm,
    storage: Map<ChunkHash, Seq<u8>>,
)
    ensures
        making(seq![step], start, algorithm, storage) == making_after(
            step,
            start,
            algorithm,
            storage,
        ),
{
    let steps = seq![step];
    assert(steps.drop_last() =~= Seq::empty());
    assert(making(steps.drop_last(), start, algorithm, storage) == start);
}

proof fn making_of_writes(
    all: Seq<Seq<ChunkHash>>,
    start: Making,
    algorithm: HashAlgorithm,
    storage: Map<ChunkHash, Seq<u8>>,
)
    requires
        restore::written(algorithm, all, storage) is Ok,
        start.mtime is None,
    ensures
        making(
            all.map_values(|window: Seq<ChunkHash>| RestoreModel::WriteChunks(window)),
            start,
            algorithm,
            storage,
        ) == (Making {
            bytes: start.bytes + restore::written(algorithm, all, storage)->Ok_0,
            ..start
        }),
    decreases all.len(),
{
    let steps = all.map_values(|window: Seq<ChunkHash>| RestoreModel::WriteChunks(window));
    if all.len() == 0 {
        assert(steps =~= Seq::empty());
        assert(start.bytes + Seq::<u8>::empty() =~= start.bytes);
    } else {
        let front = all.drop_last();
        making_of_writes(front, start, algorithm, storage);
        assert(steps.drop_last() =~= front.map_values(
            |window: Seq<ChunkHash>| RestoreModel::WriteChunks(window),
        ));
        assert(steps.last() == RestoreModel::WriteChunks(all.last()));
        let written = restore::written(algorithm, front, storage)->Ok_0;
        let data = restore::window_content(
            algorithm,
            all.last(),
            restore::fetched(all.last(), storage),
        )->Ok_0;
        assert((start.bytes + written) + data =~= start.bytes + (written + data));
    }
}

proof fn file_made(
    file: FileEntry,
    bytes: Seq<u8>,
    algorithm: HashAlgorithm,
    storage: Map<ChunkHash, Seq<u8>>,
)
    requires
        file.size_real == bytes.len(),
        entries::file_hashes(file) is Ok,
        backup::content_of(algorithm, entries::file_hashes(file)->Ok_0, storage) == Ok::<
            _,
            error::ErrorModel,
        >(bytes),
    ensures
        made(restore::restore_plan(Entry::File(Box::new(file))), algorithm, storage) == Some(
            Item::File(bytes, file.mode, file.mtime),
        ),
{
    let hashes = entries::file_hashes(file)->Ok_0;
    let start = restore::file_start(file, hashes);
    let all = restore::windows(hashes);
    let writes = all.map_values(|window: Seq<ChunkHash>| RestoreModel::WriteChunks(window));
    let end = restore::file_end(file);
    let nothing = nothing_made();
    let create = seq![RestoreModel::CreateFile];
    restore::windows_write_the_content(algorithm, hashes, storage);
    making_concat(start + writes, end, nothing, algorithm, storage);
    making_concat(start, writes, nothing, algorithm, storage);
    making_of_one(RestoreModel::CreateFile, nothing, algorithm, storage);
    let created = making(start, nothing, algorithm, storage);
    if hashes.len() > 1 {
        assert(start.drop_last() =~= create);
    } else {
        assert(start =~= create);
    }
    assert(created.kind is File && created.bytes =~= Seq::empty() && !created.failed);
    assert(created.mtime is None && created.mode is None);
    making_of_writes(all, created, algorithm, storage);
    assert(created.bytes + bytes =~= bytes);
    let filled = Making { bytes, ..created };
    assert(making(start + writes, nothing, algorithm, storage) == filled);
    let c = end.drop_last();
    let b = c.drop_last();
    let a = b.drop_last();
    assert(a =~= seq![RestoreModel::CheckSize(file.size_real)]);
    assert(b.last() == RestoreModel::Chown(file.owner));
    assert(c.last() == RestoreModel::SetTimes(file.mtime));
    assert(end.last() == RestoreModel::SetMode(file.mode));
    making_of_one(RestoreModel::CheckSize(file.size_real), filled, algorithm, storage);
    assert(making(b, filled, algorithm, storage) == filled);
    assert(making(c, filled, algorithm, storage) == Making { mtime: Some(file.mtime), ..filled });
}

spec fn tree_name(entry: Tree) -> Seq<char> {
    match entry {
        Tree::File(file) => file.name@,
        Tree::Directory(name, _, _, _, _) => name,
        Tree::Symlink(link) => link.name@,
    }
}

/// The steps that restore an entry, by its value.
spec fn tree_plan(entry: Tree) -> Seq<RestoreModel> {
    match entry {
        Tree::File(file) => restore::restore_plan(Entry::File(Box::new(file))),
        Tree::Directory(_, mode, owner, mtime, _) => seq![
            RestoreModel::CreateDir,
            RestoreModel::RestoreChildren,
            RestoreModel::StopIfFailed,
            RestoreModel::OpenDir,
            RestoreModel::Chown(owner),
            RestoreModel::SetTimes(mtime),
            RestoreModel::SetMode(mode),
        ],
        Tree::Symlink(link) => restore::restore_plan(Entry::Symlink(Box::new(link))),
    }
}

spec fn restored_tree(
    entry: Tree,
    dir: Path,
    algorithm: HashAlgorithm,
    storage: Map<ChunkHash, Seq<u8>>,
) -> Seq<(Path, Option<Item>)>
    decreases entry,
{
    let path = dir.push(Some(tree_name(entry)));
    seq![(path, made(tree_plan(entry), algorithm, storage))] + match entry {
        Tree::Directory(_, _, _, _, inside) => restored_trees(inside, path, algorithm, storage),
        _ => Seq::empty(),
    }
}

spec fn restored_trees(
    entries: Seq<Tree>,
    dir: Path,
    algorithm: HashAlgorithm,
    storage: Map<ChunkHash, Seq<u8>>,
) -> Seq<(Path, Option<Item>)>
    decreases entries,
{
    if entries.len() == 0 {
        Seq::empty()
    } else {
        restored_trees(entries.drop_last(), dir, algorithm, storage) + restored_tree(
            entries.last(),
            dir,
            algorithm,
            storage,
        )
    }
}

proof fn restored_by_value(
    entries: Seq<Entry>,
    dir: Path,
    algorithm: HashAlgorithm,
    storage: Map<ChunkHash, Seq<u8>>,
)
    ensures
        restored(entries, dir, algorithm, storage) == restored_trees(
            tree::trees_of(entries),
            dir,
            algorithm,
            storage,
        ),
    decreases entries,
{
    reveal_with_fuel(restored, 2);
    reveal_with_fuel(restored_entry, 2);
    reveal_with_fuel(restored_trees, 2);
    reveal_with_fuel(restored_tree, 2);
    reveal_with_fuel(tree::trees_of, 2);
    reveal_with_fuel(tree::tree_of, 2);
    if entries.len() > 0 {
        restored_by_value(entries.drop_last(), dir, algorithm, storage);
        let trees = tree::trees_of(entries);
        assert(trees.drop_last() =~= tree::trees_of(entries.drop_last()));
        let entry = entries.last();
        assert(trees.last() == tree::tree_of(entry));
        match entry {
            Entry::Directory(sub) => {
                restored_by_value(
                    sub.entries@,
                    dir.push(Some(sub.name@)),
                    algorithm,
                    storage,
                );
                assert(restore::restore_plan(entry) == tree_plan(tree::tree_of(entry)));
            },
            Entry::File(file) => {
                assert(entry == Entry::File(Box::new(*file)));
            },
            Entry::Symlink(link) => {
                assert(entry == Entry::Symlink(Box::new(*link)));
            },
        }
    }
}

proof fn described_is_made(
    entry: Tree,
    item: Item,
    name: Seq<char>,
    algorithm: HashAlgorithm,
    storage: Map<ChunkHash, Seq<u8>>,
)
    requires
        describes(entry, item, name, algorithm, storage),
    ensures
        tree_name(entry) == name,
        made(tree_plan(entry), algorithm, storage) == Some(item),
{
    let nothing = nothing_made();
    let steps = tree_plan(entry);
    match (entry, item) {
        (Tree::File(file), Item::File(bytes, _, _)) => {
            file_made(file, bytes, algorithm, storage);
        },
        (Tree::Directory(_, mode, owner, mtime, _), Item::Directory(_, _)) => {
            let f = steps.drop_last();
            let e = f.drop_last();
            let d = e.drop_last();
            let c = d.drop_last();
            let b = c.drop_last();
            let a = b.drop_last();
            assert(a =~= seq![RestoreModel::CreateDir]);
            making_of_one(RestoreModel::CreateDir, nothing, algorithm, storage);
            let created = making(a, nothing, algorithm, storage);
            assert(b.last() == RestoreModel::RestoreChildren);
            assert(making(b, nothing, algorithm, storage) == created);
            assert(c.last() == RestoreModel::StopIfFailed);
            assert(making(c, nothing, algorithm, storage) == created);
            assert(d.last() == RestoreModel::OpenDir);
            assert(making(d, nothing, algorithm, storage) == created);
            assert(e.last() is Chown);
            assert(making(e, nothing, algorithm, storage) == created);
            assert(f.last() == RestoreModel::SetTimes(mtime));
            assert(making(f, nothing, algorithm, storage) == Making {
                mtime: Some(mtime),
                ..created
            });
            assert(steps.last() == RestoreModel::SetMode(mode));
            assert(making(steps, nothing, algorithm, storage) == Making {
                mode: Some(mode),
                mtime: Some(mtime),
                ..created
            });
        },
        (Tree::Symlink(link), Item::Symlink(target)) => {
            let first = RestoreModel::MakeSymlink(link.target@, link.target_dir);
            assert(steps.drop_last() =~= seq![first]);
            making_of_one(first, nothing, algorithm, storage);
            assert(steps.last() == RestoreModel::Chown(link.owner));
            assert(making(steps, nothing, algorithm, storage) == Making {
                mode: None,
                ..making(steps.drop_last(), nothing, algorithm, storage)
            });
        },
        _ => {},
    }
}

/// What a path lies in is a directory of the tree.
proof fn prefix_is_directory(source: Map<Path, Item>, path: Path, n: int)
    requires
        is_tree(source),
        source.contains_key(path),
        1 <= n < path.len(),
    ensures
        source.contains_key(path.take(n)),
        source[path.take(n)] is Directory,
    decreases path.len(),
{
    let parent = path.drop_last();
    if n == path.len() - 1 {
        assert(path.take(n) =~= parent);
    } else {
        prefix_is_directory(source, parent, n);
        assert(parent.take(n) =~= path.take(n));
    }
}

/// Whether a list holds what stands at and in each of the first `n` paths, each path once, and
/// nothing else.
spec fn lists_some(
    list: Seq<(Path, Option<Item>)>,
    source: Map<Path, Item>,
    paths: Seq<Path>,
    n: int,
) -> bool {
    &&& forall|i: int|
        0 <= i < list.len() ==> {
            &&& source.contains_key((#[trigger] list[i]).0)
            &&& in_some(list[i].0, paths, n)
            &&& list[i].1 == Some(source[list[i].0])
        }
    &&& forall|i: int, j: int|
        0 <= i < j < list.len() ==> (#[trigger] list[i]).0 != (#[trigger] list[j]).0
    &&& forall|path: Path| #[trigger]
        source.contains_key(path) && in_some(path, paths, n) ==> is_listed(list, path)
}

spec fn in_some(path: Path, paths: Seq<Path>, n: int) -> bool {
    exists|j: int| 0 <= j < n && tree::lies_in(path, #[trigger] paths[j])
}

proof fn nested_is_restored(
    order: Seq<Path>,
    source: Map<Path, Item>,
    found: Map<Path, Tree>,
    algorithm: HashAlgorithm,
    storage: Map<ChunkHash, Seq<u8>>,
    dir: Path,
    depth: nat,
)
    requires
        is_tree(source),
        walks(order, source),
        forall|path: Path| #[trigger]
            source.contains_key(path) ==> describes(
                found[path],
                source[path],
                path.last()->0,
                algorithm,
                storage,
            ),
        forall|path: Path| #[trigger]
            source.contains_key(path) && tree::lies_in(path, dir) ==> path.len() <= dir.len()
                + depth,
    ensures
        lists_items(
            restored_trees(
                tree::nested(walked(order, found), dir, depth),
                dir,
                algorithm,
                storage,
            ),
            source,
            dir,
        ),
    decreases depth, 0nat,
{
    let groups = walked(order, found);
    let list = restored_trees(tree::nested(groups, dir, depth), dir, algorithm, storage);
    if depth == 0 {
        assert forall|path: Path| #[trigger]
            source.contains_key(path) && tree::lies_in(path, dir) && path != dir implies is_listed(
            list,
            path,
        ) by {
            assert(path.take(dir.len() as int) =~= path);
        }
    } else {
        let paths = kids(order, dir);
        kids_of(order, dir);
        walked_gathers(order, found, dir);
        let inside = entries_at(paths, found);
        kids_are_restored(
            order,
            source,
            found,
            algorithm,
            storage,
            dir,
            (depth - 1) as nat,
            paths.len() as int,
        );
        assert(inside.take(paths.len() as int) =~= inside);
        assert(lists_some(list, source, paths, paths.len() as int));
        assert forall|i: int| 0 <= i < list.len() implies tree::lies_in(
            (#[trigger] list[i]).0,
            dir,
        ) && list[i].0 != dir by {
            assert(in_some(list[i].0, paths, paths.len() as int));
            let j = choose|j: int|
                0 <= j < paths.len() && tree::lies_in(list[i].0, #[trigger] paths[j]);
            kid_path(order, source, dir, j);
            tree::below_is_in(list[i].0, dir, paths[j].last());
        }
        assert forall|path: Path| #[trigger]
            source.contains_key(path) && tree::lies_in(path, dir) && path != dir implies is_listed(
            list,
            path,
        ) by {
            let n = dir.len() + 1int;
            assert(path.len() > dir.len()) by {
                if path.len() == dir.len() {
                    assert(path.take(dir.len() as int) =~= path);
                }
            }
            let kid = path.take(n);
            if n < path.len() {
                prefix_is_directory(source, path, n);
            } else {
                assert(kid =~= path);
            }
            assert(kid.drop_last() =~= path.take(dir.len() as int));
            assert(order.contains(kid));
            assert(paths.contains(kid));
            let j = choose|j: int| 0 <= j < paths.len() && paths[j] == kid;
            assert(tree::lies_in(path, paths[j]));
            assert(in_some(path, paths, paths.len() as int));
        }
    }
}

/// A path right in a directory is the directory's path and a name.
proof fn kid_path(order: Seq<Path>, source: Map<Path, Item>, dir: Path, j: int)
    requires
        is_tree(source),
        walks(order, source),
        0 <= j < kids(order, dir).len(),
    ensures
        ({
            let path = kids(order, dir)[j];
            &&& source.contains_key(path)
            &&& path == dir.push(path.last())
            &&& path.last() is Some
        }),
{
    kids_of(order, dir);
    let path = kids(order, dir)[j];
    assert(order.contains(path));
    assert(path =~= path.drop_last().push(path.last()));
}

proof fn kids_are_restored(
    order: Seq<Path>,
    source: Map<Path, Item>,
    found: Map<Path, Tree>,
    algorithm: HashAlgorithm,
    storage: Map<ChunkHash, Seq<u8>>,
    dir: Path,
    depth: nat,
    n: int,
)
    requires
        is_tree(source),
        walks(order, source),
        forall|path: Path| #[trigger]
            source.contains_key(path) ==> describes(
                found[path],
                source[path],
                path.last()->0,
                algorithm,
                storage,
            ),
        forall|path: Path| #[trigger]
            source.contains_key(path) && tree::lies_in(path, dir) ==> path.len() <= dir.len() + 1
                + depth,
        0 <= n <= kids(order, dir).len(),
    ensures
        lists_some(
            restored_trees(
                tree::nested_entries(
                    walked(order, found),
                    dir,
                    entries_at(kids(order, dir), found).take(n),
                    depth,
                ),
                dir,
                algorithm,
                storage,
            ),
            source,
            kids(order, dir),
            n,
        ),
    decreases depth, 1 + n,
{
    let groups = walked(order, found);
    let paths = kids(order, dir);
    let inside = entries_at(paths, found);
    let nested = tree::nested_entries(groups, dir, inside.take(n), depth);
    let list = restored_trees(nested, dir, algorithm, storage);
    if n == 0 {
        assert(inside.take(0) =~= Seq::empty());
    } else {
        let kid = paths[n - 1];
        let name = kid.last()->0;
        let entry = found[kid];
        kid_path(order, source, dir, n - 1);
        kids_of(order, dir);
        kids_are_restored(order, source, found, algorithm, storage, dir, depth, n - 1);
        assert(inside.take(n).drop_last() =~= inside.take(n - 1));
        assert(inside.take(n).last() == entry);
        let before = restored_trees(
            tree::nested_entries(groups, dir, inside.take(n - 1), depth),
            dir,
            algorithm,
            storage,
        );
        described_is_made(entry, source[kid], name, algorithm, storage);
        let placed = nested.last();
        assert(nested.drop_last() =~= tree::nested_entries(
            groups,
            dir,
            inside.take(n - 1),
            depth,
        ));
        assert(tree_name(placed) == name);
        assert(tree_plan(placed) == tree_plan(entry));
        let below = match placed {
            Tree::Directory(_, _, _, _, deeper) => restored_trees(deeper, kid, algorithm, storage),
            _ => Seq::empty(),
        };
        let own = seq![(kid, Some(source[kid]))];
        assert(restored_tree(placed, dir, algorithm, storage) == own + below);
        assert(list == before + (own + below));
        if entry is Directory {
            assert forall|path: Path| #[trigger]
                source.contains_key(path) && tree::lies_in(path, kid) implies path.len()
                <= kid.len() + depth by {
                tree::below_is_in(path, dir, kid.last());
            }
            nested_is_restored(order, source, found, algorithm, storage, kid, depth);
            assert(lists_items(below, source, kid));
        } else {
            assert forall|path: Path| #[trigger]
                source.contains_key(path) && tree::lies_in(path, kid) && path != kid implies false by {
                assert(path.len() > kid.len()) by {
                    if path.len() == kid.len() {
                        assert(path.take(kid.len() as int) =~= path);
                    }
                }
                prefix_is_directory(source, path, kid.len() as int);
            }
            assert(lists_items(below, source, kid));
        }
        one_more_kid(source, paths, n, before, below);
    }
}

/// What is in different paths of one length is different.
proof fn apart(path: Path, a: Path, b: Path)
    requires
        tree::lies_in(path, a),
        tree::lies_in(path, b),
        a.len() == b.len(),
    ensures
        a == b,
{
}

proof fn one_more_kid(
    source: Map<Path, Item>,
    paths: Seq<Path>,
    n: int,
    before: Seq<(Path, Option<Item>)>,
    below: Seq<(Path, Option<Item>)>,
)
    requires
        0 < n <= paths.len(),
        paths.no_duplicates(),
        forall|j: int|
            0 <= j < paths.len() ==> (#[trigger] paths[j]).len() == paths[n - 1].len(),
        source.contains_key(paths[n - 1]),
        lists_some(before, source, paths, n - 1),
        lists_items(below, source, paths[n - 1]),
    ensures
        lists_some(
            before + (seq![(paths[n - 1], Some(source[paths[n - 1]]))] + below),
            source,
            paths,
            n,
        ),
{
    let kid = paths[n - 1];
    let own = seq![(kid, Some(source[kid]))];
    let list = before + (own + below);
    let b = before.len() as int;
    assert(tree::lies_in(kid, kid)) by {
        assert(kid.take(kid.len() as int) =~= kid);
    }
    assert forall|i: int| 0 <= i < list.len() implies source.contains_key((#[trigger] list[i]).0)
        && in_some(list[i].0, paths, n) && list[i].1 == Some(source[list[i].0]) by {
        if i < b {
            assert(list[i] == before[i]);
            let j = choose|j: int|
                0 <= j < n - 1 && tree::lies_in(before[i].0, #[trigger] paths[j]);
            assert(tree::lies_in(list[i].0, paths[j]));
        } else if i == b {
            assert(list[i] == own[0]);
            assert(tree::lies_in(list[i].0, paths[n - 1]));
        } else {
            assert(list[i] == below[i - b - 1]);
            assert(tree::lies_in(list[i].0, paths[n - 1]));
        }
    }
    assert forall|i: int, j: int| 0 <= i < j < list.len() implies (#[trigger] list[i]).0 != (
    #[trigger] list[j]).0 by {
        if j < b {
            assert(list[i] == before[i] && list[j] == before[j]);
        } else {
            let second = list[j].0;
            if j == b {
                assert(list[j] == own[0]);
            } else {
                assert(list[j] == below[j - b - 1]);
            }
            assert(tree::lies_in(second, kid));
            if i < b {
                assert(list[i] == before[i]);
                let m = choose|m: int|
                    0 <= m < n - 1 && tree::lies_in(before[i].0, #[trigger] paths[m]);
                if list[i].0 == second {
                    apart(second, paths[m], kid);
                }
            } else if i == b {
                assert(list[i] == own[0]);
            } else {
                assert(list[i] == below[i - b - 1]);
            }
        }
    }
    assert forall|path: Path| #[trigger]
        source.contains_key(path) && in_some(path, paths, n) implies is_listed(list, path) by {
        let m = choose|m: int| 0 <= m < n && tree::lies_in(path, #[trigger] paths[m]);
        if m < n - 1 {
            assert(in_some(path, paths, n - 1));
            assert(is_listed(before, path));
            let i = choose|i: int| 0 <= i < before.len() && (#[trigger] before[i]).0 == path;
            assert(list[i].0 == path);
        } else if path == kid {
            assert(list[b].0 == path);
        } else {
            assert(is_listed(below, path));
            let i = choose|i: int| 0 <= i < below.len() && (#[trigger] below[i]).0 == path;
            assert(list[b + 1 + i].0 == path);
        }
    }
}

/// The entry of a file that was cut, hashed and stored describes the file: with pieces that cover
/// its bytes and are not empty, each stored under its hash in a form that reads back as the piece,
/// and the hashes of the pieces as the entry's list. Only a file without bytes has no pieces.
pub proof fn backed_up_file_is_described(
    file: FileEntry,
    data: Seq<u8>,
    ranges: Seq<(usize, usize)>,
    algorithm: HashAlgorithm,
    storage: Map<ChunkHash, Seq<u8>>,
)
    requires
        cdc::rejoined(data, ranges) == data,
        forall|i: int|
            0 <= i < ranges.len() ==> 0 < (#[trigger] ranges[i]).1 && ranges[i].0 + ranges[i].1
                <= data.len(),
        forall|i: int|
            0 <= i < ranges.len() ==> ({
                let piece = backup::piece_at(data, #[trigger] ranges[i]);
                let hash = hash::digest(algorithm, piece);
                chunk::verified_chunk(algorithm, hash, storage[hash]) == Ok::<
                    _,
                    error::ErrorModel,
                >(piece)
            }),
        file.body is Ok,
        file.body->Ok_0@ == migrate::flattened(backup::piece_hashes(algorithm, data, ranges)),
        file.size_real == data.len(),
    ensures
        backup::piece_hashes(algorithm, data, ranges).len() == 0 <==> data.len() == 0,
        describes(
            Tree::File(file),
            Item::File(data, file.mode, file.mtime),
            file.name@,
            algorithm,
            storage,
        ),
{
    let hashes = backup::piece_hashes(algorithm, data, ranges);
    backup::backup_restores(algorithm, data, ranges, storage);
    migrate::flattened_reads_back(hashes);
    if ranges.len() > 0 {
        assert(ranges[ranges.len() - 1] == ranges.last());
        assert(cdc::rejoined(data, ranges).len() > 0);
    }
    assert(entries::file_hashes(file) == Ok::<_, error::ErrorModel>(hashes));
}

/// The entry of a file that was cut as it was read describes the file: with its pieces taken one
/// after the other, each stored under its hash in a form that reads back as the piece, and what is
/// then known of them in the entry, its bytes are those of the pieces in that order. Only a file
/// without bytes has no pieces.
pub proof fn streamed_file_is_described(
    file: FileEntry,
    pieces: Seq<Seq<u8>>,
    states: Seq<Streamed>,
    algorithm: HashAlgorithm,
    storage: Map<ChunkHash, Seq<u8>>,
)
    requires
        states.len() == pieces.len() + 1,
        states[0].hashes@.len() == 0,
        states[0].size == 0,
        forall|i: int|
            0 <= i < pieces.len() ==> {
                &&& states[i + 1].hashes@ == states[i].hashes@.push(
                    hash::digest(algorithm, #[trigger] pieces[i]),
                )
                &&& states[i + 1].size == states[i].size + pieces[i].len()
            },
        pieces.len() > 0 ==> backup::joined(pieces).len() > 0,
        forall|i: int|
            0 <= i < pieces.len() ==> ({
                let hash = hash::digest(algorithm, #[trigger] pieces[i]);
                chunk::verified_chunk(algorithm, hash, storage[hash]) == Ok::<
                    _,
                    error::ErrorModel,
                >(pieces[i])
            }),
        file.body is Ok,
        file.body->Ok_0@ == migrate::flattened(states.last().hashes@),
        file.size_real == states.last().size,
    ensures
        states.last().lists(algorithm, pieces),
        states.last().hashes@.len() == 0 <==> backup::joined(pieces).len() == 0,
        describes(
            Tree::File(file),
            Item::File(backup::joined(pieces), file.mode, file.mtime),
            file.name@,
            algorithm,
            storage,
        ),
{
    streamed_lists(pieces, states, algorithm, pieces.len() as int);
    assert(pieces.take(pieces.len() as int) =~= pieces);
    let hashes = backup::digests(algorithm, pieces);
    backup::joined_restores(algorithm, pieces, storage);
    migrate::flattened_reads_back(hashes);
    assert(entries::file_hashes(file) == Ok::<_, error::ErrorModel>(hashes));
}

proof fn streamed_lists(
    pieces: Seq<Seq<u8>>,
    states: Seq<Streamed>,
    algorithm: HashAlgorithm,
    n: int,
)
    requires
        states.len() == pieces.len() + 1,
        states[0].hashes@.len() == 0,
        states[0].size == 0,
        forall|i: int|
            0 <= i < pieces.len() ==> {
                &&& states[i + 1].hashes@ == states[i].hashes@.push(
                    hash::digest(algorithm, #[trigger] pieces[i]),
                )
                &&& states[i + 1].size == states[i].size + pieces[i].len()
            },
        0 <= n <= pieces.len(),
    ensures
        states[n].lists(algorithm, pieces.take(n)),
    decreases n,
{
    if n == 0 {
        assert(states[0].hashes@ =~= backup::digests(algorithm, pieces.take(0)));
    } else {
        streamed_lists(pieces, states, algorithm, n - 1);
        let last = pieces[n - 1];
        assert(pieces.take(n).drop_last() =~= pieces.take(n - 1));
        assert(pieces.take(n).last() == last);
        assert(states[n].hashes@ =~= backup::digests(algorithm, pieces.take(n)));
    }
}

/// An archive restores as the tree that it was made from. A walk that comes to every path of a
/// tree takes every one of them; and where what it finds is gathered in the order of the walk,
/// whatever that is, and nested into entries, restoring them makes every path of the tree once and
/// nothing else: files with their bytes, mode and time, directories with their mode and time, and
/// links with their target.
pub proof fn archive_restores(
    source: Map<Path, Item>,
    order: Seq<Path>,
    found: Map<Path, Tree>,
    entries: Seq<Entry>,
    algorithm: HashAlgorithm,
    storage: Map<ChunkHash, Seq<u8>>,
)
    requires
        forall|path: Path| #[trigger]
            source.contains_key(path) ==> {
                &&& 0 < path.len() <= 256
                &&& path.last() is Some
                &&& path.last() != Some("."@) && path.last() != Some(".."@) && path.last() != Some(
                    "/"@,
                )
                &&& !path.contains(Some(".ddup-bak"@)) && !path.contains(
                    Some(".ddup-bak-restore"@),
                )
                &&& path.len() > 1 ==> source.contains_key(path.drop_last())
                    && source[path.drop_last()] is Directory
            },
        order.no_duplicates(),
        forall|path: Path| #[trigger] order.contains(path) <==> source.contains_key(path),
        forall|path: Path| #[trigger]
            source.contains_key(path) ==> describes(
                found[path],
                source[path],
                path.last()->0,
                algorithm,
                storage,
            ),
        tree::trees_of(entries) == tree::assembled(Seq::empty(), walked(order, found)).0,
    ensures
        forall|path: Path, shown: Seq<char>, root: Seq<char>|
            source.contains_key(path) ==> #[trigger] backup::visited(
                shown,
                Some(path),
                root,
                backup::MAX_DEPTH,
            ) == Ok::<_, error::ErrorModel>(
                backup::VisitModel::Take(path.last()->0, path.drop_last()),
            ),
        lists_items(
            restored(entries, Seq::empty(), algorithm, storage),
            source,
            Seq::empty(),
        ),
        ({
            let list = restored(entries, Seq::empty(), algorithm, storage);
            &&& forall|i: int|
                0 <= i < list.len() ==> source.contains_key((#[trigger] list[i]).0) && list[i].1
                    == Some(source[list[i].0])
            &&& forall|i: int, j: int|
                0 <= i < j < list.len() ==> (#[trigger] list[i]).0 != (#[trigger] list[j]).0
            &&& forall|path: Path| #[trigger]
                source.contains_key(path) ==> exists|i: int|
                    0 <= i < list.len() && (#[trigger] list[i]).0 == path
        }),
{
    let groups = walked(order, found);
    let depth = longest(order) + 1;
    walked_well(order, source, found, algorithm, storage);
    tree::assembled_is_nested(Seq::empty(), groups, depth);
    assert forall|path: Path| #[trigger]
        source.contains_key(path) && tree::lies_in(path, Seq::empty()) implies path.len() <= depth by {
        assert(order.contains(path));
        longest_bounds(order, path);
    }
    nested_is_restored(order, source, found, algorithm, storage, Seq::empty(), depth);
    restored_by_value(entries, Seq::empty(), algorithm, storage);
    let list = restored(entries, Seq::empty(), algorithm, storage);
    assert forall|path: Path| #[trigger] source.contains_key(path) implies exists|i: int|
        0 <= i < list.len() && (#[trigger] list[i]).0 == path by {
        assert(path.take(0) =~= Seq::empty());
        assert(tree::lies_in(path, Seq::empty()));
        assert(is_listed(list, path));
    }
}

/// What a walk gathers, path by path: each entry under the directory of its path.
pub proof fn walks_gather_path_by_path(order: Seq<Path>, path: Path, found: Map<Path, Tree>)
    ensures
        walked(Seq::empty(), found) == Seq::<GroupModel>::empty(),
        walked(order.push(path), found) == tree::added(
            walked(order, found),
            path.drop_last(),
            found[path],
        ),
{
    assert(order.push(path).drop_last() =~= order);
}

/// What is restored of entries, entry by entry and in order: what the steps for the entry make at
/// its path, and in a directory what is restored of its entries.
pub proof fn entries_are_restored_in_order(
    front: Seq<Entry>,
    last: Entry,
    dir: Path,
    algorithm: HashAlgorithm,
    storage: Map<ChunkHash, Seq<u8>>,
)
    ensures
        restored(Seq::empty(), dir, algorithm, storage) == Seq::<(Path, Option<Item>)>::empty(),
        ({
            let name = match last {
                Entry::File(file) => file.name@,
                Entry::Directory(sub) => sub.name@,
                Entry::Symlink(link) => link.name@,
            };
            let path = dir.push(Some(name));
            let own = (path, made(restore::restore_plan(last), algorithm, storage));
            restored(front.push(last), dir, algorithm, storage) == restored(
                front,
                dir,
                algorithm,
                storage,
            ) + (seq![own] + match last {
                Entry::Directory(sub) => restored(sub.entries@, path, algorithm, storage),
                _ => Seq::empty(),
            })
        }),
{
    reveal_with_fuel(restored, 3);
    reveal_with_fuel(restored_entry, 3);
    assert(front.push(last).drop_last() =~= front);
    assert(front.push(last).last() == last);
}

/// The entry of an item carries its name and all of it: the bytes of a file by its chunks, its mode
/// and its time, those of a directory, and the target of a link.
pub proof fn described_by_its_parts(
    entry: Tree,
    item: Item,
    name: Seq<char>,
    algorithm: HashAlgorithm,
    storage: Map<ChunkHash, Seq<u8>>,
)
    ensures
        describes(entry, item, name, algorithm, storage) <==> match item {
            Item::File(bytes, mode, mtime) => entry is File && entry->File_0.name@ == name
                && entry->File_0.mode == mode && entry->File_0.mtime == mtime
                && entry->File_0.size_real == bytes.len() && entries::file_hashes(
                entry->File_0,
            ) is Ok && backup::content_of(
                algorithm,
                entries::file_hashes(entry->File_0)->Ok_0,
                storage,
            ) == Ok::<_, error::ErrorModel>(bytes),
            Item::Directory(mode, mtime) => entry is Directory && entry->Directory_0 == name
                && entry->Directory_1 == mode && entry->Directory_3 == mtime,
            Item::Symlink(target) => entry is Symlink && entry->Symlink_0.name@ == name
                && entry->Symlink_0.target@ == target,
        },
{
}

} // verus!
