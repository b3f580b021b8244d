//! Format 1 archives, whose files list chunk ids, rewritten to list chunk hashes.
use crate::chunks::hash::ChunkHash;
use crate::chunks::header;
use crate::entries;
use crate::entries::{
    entry_hashes_v1, DirectoryEntry, Entry, FileEntry, SymlinkEntry,
};
use crate::error;
use crate::error::Error;
use std::collections::HashMap;
use vstd::prelude::*;

verus! {

/// Hashes as bytes, one after the other.
pub open spec fn flattened(hashes: Seq<ChunkHash>) -> Seq<u8>
    decreases hashes.len(),
{
    if hashes.len() == 0 {
        Seq::empty()
    } else {
        flattened(hashes.drop_last()) + hashes.last()@
    }
}

/// The chunks that a format 1 entry and everything in it is made of.
pub open spec fn entry_tree_hashes_v1(entry: Entry, ids: Map<u64, ChunkHash>) -> Result<
    Seq<ChunkHash>,
    error::ErrorModel,
>
    decreases entry,
{
    match entry {
        Entry::File(file) => entries::file_hashes_v1(*file, ids),
        Entry::Directory(dir) => tree_hashes_v1(dir.entries@, ids),
        Entry::Symlink(_) => Ok(Seq::empty()),
    }
}

/// The chunks that format 1 entries are made of. The first entry that cannot be read decides.
pub open spec fn tree_hashes_v1(entries: Seq<Entry>, ids: Map<u64, ChunkHash>) -> Result<
    Seq<ChunkHash>,
    error::ErrorModel,
>
    decreases entries,
{
    if entries.len() == 0 {
        Ok(Seq::empty())
    } else {
        match tree_hashes_v1(entries.drop_last(), ids) {
            Ok(hashes) => match entry_tree_hashes_v1(entries.last(), ids) {
                Ok(more) => Ok(hashes + more),
                Err(err) => Err(err),
            },
            Err(err) => Err(err),
        }
    }
}

/// Whether an entry is another one migrated: a file lists the hashes that its ids stood for, and
/// everything else is as it was.
pub open spec fn migrated(old: Entry, new: Entry, ids: Map<u64, ChunkHash>) -> bool
    decreases old,
{
    match (old, new) {
        (Entry::File(old), Entry::File(new)) => {
            &&& entries::file_hashes_v1(*old, ids) is Ok
            &&& new.body is Ok
            &&& new.body->Ok_0@ == flattened(entries::file_hashes_v1(*old, ids)->Ok_0)
            &&& new.name@ == old.name@
            &&& new.mode == old.mode
            &&& new.owner == old.owner
            &&& new.mtime == old.mtime
            &&& new.size_real == old.size_real
        },
        (Entry::Directory(old), Entry::Directory(new)) => {
            &&& new.name@ == old.name@
            &&& new.mode == old.mode
            &&& new.owner == old.owner
            &&& new.mtime == old.mtime
            &&& all_migrated(old.entries@, new.entries@, ids)
        },
        (Entry::Symlink(old), Entry::Symlink(new)) => {
            &&& new.name@ == old.name@
            &&& new.mode == old.mode
            &&& new.owner == old.owner
            &&& new.mtime == old.mtime
            &&& new.target@ == old.target@
            &&& new.target_dir == old.target_dir
        },
        _ => false,
    }
}

pub open spec fn all_migrated(old: Seq<Entry>, new: Seq<Entry>, ids: Map<u64, ChunkHash>) -> bool
    decreases old,
{
    old.len() == new.len() && (old.len() == 0 || (all_migrated(
        old.drop_last(),
        new.drop_last(),
        ids,
    ) && migrated(old.last(), new.last(), ids)))
}

/// Whether each file has chunks exactly if it has content.
pub open spec fn sizes_agree(entry: Entry, ids: Map<u64, ChunkHash>) -> bool
    decreases entry,
{
    match entry {
        Entry::File(file) => entries::file_hashes_v1(*file, ids) is Ok ==> (
        entries::file_hashes_v1(*file, ids)->Ok_0.len() == 0) == (file.size_real == 0),
        Entry::Directory(dir) => all_sizes_agree(dir.entries@, ids),
        Entry::Symlink(_) => true,
    }
}

pub open spec fn all_sizes_agree(entries: Seq<Entry>, ids: Map<u64, ChunkHash>) -> bool
    decreases entries,
{
    entries.len() == 0 || (all_sizes_agree(entries.drop_last(), ids) && sizes_agree(
        entries.last(),
        ids,
    ))
}

proof fn flattened_len(hashes: Seq<ChunkHash>)
    ensures
        flattened(hashes).len() == 32 * hashes.len(),
    decreases hashes.len(),
{
    if hashes.len() > 0 {
        flattened_len(hashes.drop_last());
    }
}

/// Hashes as bytes are 32 bytes for each, in order.
pub proof fn flattened_in_order(hashes: Seq<ChunkHash>)
    ensures
        flattened(hashes).len() == 32 * hashes.len(),
        forall|i: int|
            0 <= i < hashes.len() ==> flattened(hashes).subrange(32 * i, 32 * i + 32) == (
            #[trigger] hashes[i])@,
    decreases hashes.len(),
{
    flattened_len(hashes);
    if hashes.len() > 0 {
        let front = hashes.drop_last();
        flattened_in_order(front);
        let bytes = flattened(hashes);
        assert forall|i: int| 0 <= i < hashes.len() implies bytes.subrange(32 * i, 32 * i + 32)
            == (#[trigger] hashes[i])@ by {
            if i < front.len() {
                assert(front[i] == hashes[i]);
                assert(bytes.subrange(32 * i, 32 * i + 32) =~= flattened(front).subrange(
                    32 * i,
                    32 * i + 32,
                ));
            } else {
                assert(bytes.subrange(32 * i, 32 * i + 32) =~= hashes.last()@);
            }
        }
    }
}

/// A list of hashes reads back from its bytes.
pub proof fn flattened_reads_back(hashes: Seq<ChunkHash>)
    ensures
        flattened(hashes).len() % 32 == 0,
        flattened(hashes).len() == 0 <==> hashes.len() == 0,
        entries::hashes_in(flattened(hashes)) == hashes,
    decreases hashes.len(),
{
    flattened_len(hashes);
    let bytes = flattened(hashes);
    if hashes.len() > 0 {
        let front = hashes.drop_last();
        flattened_reads_back(front);
        flattened_len(front);
        assert forall|i: int| 0 <= i < hashes.len() implies entries::hashes_in(bytes)[i]
            == hashes[i] by {
            if i < front.len() {
                assert(entries::hashes_in(flattened(front))[i] == front[i]);
                assert(bytes.subrange(32 * i, 32 * i + 32) =~= flattened(front).subrange(
                    32 * i,
                    32 * i + 32,
                ));
            } else {
                assert(bytes.subrange(32 * i, 32 * i + 32) =~= hashes.last()@);
                header::hash_of_bytes(hashes.last());
            }
        }
    }
    assert(entries::hashes_in(bytes) =~= hashes);
}

/// Migrated entries are made of the chunks that the format 1 entries were made of.
pub proof fn migration_keeps_chunks(old: Seq<Entry>, new: Seq<Entry>, ids: Map<u64, ChunkHash>)
    requires
        all_migrated(old, new, ids),
        all_sizes_agree(old, ids),
    ensures
        entries::tree_hashes(new) == tree_hashes_v1(old, ids),
        tree_hashes_v1(old, ids) is Ok,
    decreases old,
{
    if old.len() > 0 {
        migration_keeps_chunks(old.drop_last(), new.drop_last(), ids);
        entry_migration_keeps_chunks(old.last(), new.last(), ids);
    }
}

proof fn entry_migration_keeps_chunks(old: Entry, new: Entry, ids: Map<u64, ChunkHash>)
    requires
        migrated(old, new, ids),
        sizes_agree(old, ids),
    ensures
        entries::entry_tree_hashes(new) == entry_tree_hashes_v1(old, ids),
        entry_tree_hashes_v1(old, ids) is Ok,
    decreases old,
{
    match (old, new) {
        (Entry::File(old), Entry::File(new)) => {
            flattened_reads_back(entries::file_hashes_v1(*old, ids)->Ok_0);
        },
        (Entry::Directory(old), Entry::Directory(new)) => {
            migration_keeps_chunks(old.entries@, new.entries@, ids);
        },
        _ => {},
    }
}

/// An error among the first entries is the error of all of them.
proof fn error_of_prefix(entries: Seq<Entry>, ids: Map<u64, ChunkHash>, n: int)
    requires
        0 <= n <= entries.len(),
        tree_hashes_v1(entries.take(n), ids) is Err,
    ensures
        tree_hashes_v1(entries, ids) == tree_hashes_v1(entries.take(n), ids),
    decreases entries.len() - n,
{
    if n < entries.len() {
        assert(entries.take(n + 1).drop_last() =~= entries.take(n));
        error_of_prefix(entries, ids, n + 1);
    } else {
        assert(entries.take(n) =~= entries);
    }
}

/// Hashes as bytes.
pub fn flatten(hashes: &Vec<ChunkHash>) -> (bytes: Vec<u8>)
    ensures
        bytes@ == flattened(hashes@),
        bytes@.len() == 32 * hashes@.len(),
        forall|i: int|
            0 <= i < hashes@.len() ==> bytes@.subrange(32 * i, 32 * i + 32) == (
            #[trigger] hashes@[i])@,
{
    let mut bytes: Vec<u8> = Vec::new();
    let mut i: usize = 0;
    assert(hashes@.take(0) =~= Seq::empty());
    while i < hashes.len()
        invariant
            i <= hashes@.len(),
            bytes@ == flattened(hashes@.take(i as int)),
        decreases hashes@.len() - i,
    {
        let ghost before = bytes@;
        bytes.extend_from_slice(hashes[i].as_slice());
        proof {
            assert(hashes@.take(i + 1).drop_last() =~= hashes@.take(i as int));
            assert(bytes@ =~= before + hashes@[i as int]@);
        }
        i = i + 1;
    }
    assert(hashes@.take(i as int) =~= hashes@);
    proof {
        flattened_in_order(hashes@);
    }
    bytes
}

/// Copies a format 1 entry tree, replacing chunk id lists with hash lists.
pub fn migrate_v1_entries(entries: &Vec<Entry>, ids: &HashMap<u64, ChunkHash>) -> (result: Result<
    Vec<Entry>,
    Error,
>)
    ensures
        match (result, tree_hashes_v1(entries@, ids@)) {
            (Ok(new), Ok(_)) => all_migrated(entries@, new@, ids@),
            (Err(err), Err(err_spec)) => err@ == err_spec,
            _ => false,
        },
    decreases entries,
{
    let mut new: Vec<Entry> = Vec::new();
    let mut i: usize = 0;
    proof {
        assert(entries@.take(0) =~= Seq::empty());
    }
    while i < entries.len()
        invariant
            i <= entries@.len(),
            new@.len() == i,
            tree_hashes_v1(entries@.take(i as int), ids@) is Ok,
            all_migrated(entries@.take(i as int), new@, ids@),
        decreases entries@.len() - i,
    {
        proof {
            reveal_with_fuel(tree_hashes_v1, 2);
            reveal_with_fuel(entry_tree_hashes_v1, 2);
            reveal_with_fuel(migrated, 2);
            reveal_with_fuel(all_migrated, 2);
            assert(entries@.take(i + 1).drop_last() =~= entries@.take(i as int));
            assert(entries@.take(i + 1).last() == entries@[i as int]);
        }
        let ghost before = new@;
        let entry = match &entries[i] {
            Entry::File(file) => match entry_hashes_v1(file, ids) {
                Ok(hashes) => Entry::File(
                    Box::new(
                        FileEntry {
                            name: file.name.clone(),
                            mode: file.mode,
                            owner: file.owner,
                            mtime: file.mtime,
                            size_real: file.size_real,
                            body: Ok(flatten(&hashes)),
                        },
                    ),
                ),
                Err(err) => {
                    proof {
                        error_of_prefix(entries@, ids@, i + 1);
                    }
                    return Err(err);
                },
            },
            Entry::Directory(dir) => match migrate_v1_entries(&dir.entries, ids) {
                Ok(inside) => Entry::Directory(
                    Box::new(
                        DirectoryEntry {
                            name: dir.name.clone(),
                            mode: dir.mode,
                            owner: dir.owner,
                            mtime: dir.mtime,
                            entries: inside,
                        },
                    ),
                ),
                Err(err) => {
                    proof {
                        error_of_prefix(entries@, ids@, i + 1);
                    }
                    return Err(err);
                },
            },
            Entry::Symlink(link) => Entry::Symlink(
                Box::new(
                    SymlinkEntry {
                        name: link.name.clone(),
                        mode: link.mode,
                        owner: link.owner,
                        mtime: link.mtime,
                        target: link.target.clone(),
                        target_dir: link.target_dir,
                    },
                ),
            ),
        };
        assert(migrated(entries@[i as int], entry, ids@));
        new.push(entry);
        proof {
            assert(new@.drop_last() =~= before);
        }
        i = i + 1;
    }
    assert(entries@.take(entries@.len() as int) =~= entries@);
    Ok(new)
}

/// What format 1 entries are made of, entry by entry: a file adds the chunks of all its ids, a
/// directory all of what is in it, and a link nothing. The first that cannot be read decides.
pub proof fn ids_add_up(front: Seq<Entry>, last: Entry, ids: Map<u64, ChunkHash>)
    ensures
        tree_hashes_v1(Seq::empty(), ids) == Ok::<_, error::ErrorModel>(Seq::<ChunkHash>::empty()),
        tree_hashes_v1(front, ids) is Err ==> tree_hashes_v1(front.push(last), ids)
            == tree_hashes_v1(front, ids),
        tree_hashes_v1(front, ids) is Ok ==> tree_hashes_v1(front.push(last), ids) == match match last {
            Entry::File(file) => entries::file_hashes_v1(*file, ids),
            Entry::Directory(dir) => tree_hashes_v1(dir.entries@, ids),
            Entry::Symlink(_) => Ok(Seq::empty()),
        } {
            Ok(more) => Ok(tree_hashes_v1(front, ids)->Ok_0 + more),
            Err(err) => Err(err),
        },
{
    reveal_with_fuel(tree_hashes_v1, 3);
    reveal_with_fuel(entry_tree_hashes_v1, 3);
    assert(front.push(last).drop_last() =~= front);
}

/// A migrated file lists, for each of its ids, the hash that the id stood for, in order, and
/// nothing else of it has changed.
pub proof fn migrated_file_lists_every_id(
    old: FileEntry,
    new: Entry,
    list: Seq<u64>,
    ids: Map<u64, ChunkHash>,
)
    requires
        migrated(Entry::File(Box::new(old)), new, ids),
        old.body is Ok,
        old.body->Ok_0@ == entries::ids_bytes(list),
        forall|i: int| 0 <= i < list.len() ==> ids.contains_key(#[trigger] list[i]),
    ensures
        new is File,
        new->File_0.body is Ok,
        new->File_0.body->Ok_0@.len() == 32 * list.len(),
        forall|i: int|
            0 <= i < list.len() ==> new->File_0.body->Ok_0@.subrange(32 * i, 32 * i + 32)
                == ids[#[trigger] list[i]]@,
        new->File_0.name@ == old.name@,
        new->File_0.mode == old.mode,
        new->File_0.owner == old.owner,
        new->File_0.mtime == old.mtime,
        new->File_0.size_real == old.size_real,
        (list.len() == 0) == (old.size_real == 0) ==> entries::file_hashes(*new->File_0) == Ok::<
            _,
            error::ErrorModel,
        >(Seq::new(list.len(), |i: int| ids[list[i]])),
{
    reveal_with_fuel(migrated, 2);
    let hashes = Seq::new(list.len(), |i: int| ids[list[i]]);
    entries::listed_ids_are_resolved(old, list, ids);
    flattened_in_order(hashes);
    let body = new->File_0.body->Ok_0@;
    assert forall|i: int| 0 <= i < list.len() implies body.subrange(32 * i, 32 * i + 32)
        == ids[#[trigger] list[i]]@ by {
        assert(hashes[i] == ids[list[i]]);
    }
    if (list.len() == 0) == (old.size_real == 0) {
        entries::listed_hashes_are_read(*new->File_0, hashes);
    }
}

/// Migrated directories and links are what they were, and what is in a directory is migrated.
pub proof fn migrated_entries_keep_the_rest(old: Entry, new: Entry, ids: Map<u64, ChunkHash>)
    requires
        migrated(old, new, ids),
    ensures
        match old {
            Entry::File(_) => new is File,
            Entry::Directory(dir) => {
                &&& new is Directory
                &&& new->Directory_0.name@ == dir.name@
                &&& new->Directory_0.mode == dir.mode
                &&& new->Directory_0.owner == dir.owner
                &&& new->Directory_0.mtime == dir.mtime
                &&& all_migrated(dir.entries@, new->Directory_0.entries@, ids)
            },
            Entry::Symlink(link) => {
                &&& new is Symlink
                &&& new->Symlink_0.name@ == link.name@
                &&& new->Symlink_0.mode == link.mode
                &&& new->Symlink_0.owner == link.owner
                &&& new->Symlink_0.mtime == link.mtime
                &&& new->Symlink_0.target@ == link.target@
                &&& new->Symlink_0.target_dir == link.target_dir
            },
        },
{
    reveal_with_fuel(migrated, 2);
    reveal_with_fuel(all_migrated, 2);
}

/// As many entries come out of a migration as went in, each in its place.
pub proof fn every_entry_is_migrated(
    old: Seq<Entry>,
    new: Seq<Entry>,
    ids: Map<u64, ChunkHash>,
    i: int,
)
    requires
        all_migrated(old, new, ids),
        0 <= i < old.len(),
    ensures
        new.len() == old.len(),
        migrated(old[i], new[i], ids),
    decreases old.len(),
{
    reveal_with_fuel(migrated, 2);
    reveal_with_fuel(all_migrated, 2);
    if i + 1 < old.len() {
        assert(old.drop_last()[i] == old[i] && new.drop_last()[i] == new[i]);
        every_entry_is_migrated(old.drop_last(), new.drop_last(), ids, i);
    }
}

} // verus!
