//! Finding directories in an archive.
use crate::entries::{DirectoryEntry, Entry};
use crate::repository::names;
use crate::text;
use crate::repository::settings::Repository;
use vstd::prelude::*;

verus! {

pub open spec fn entry_name(entry: Entry) -> Seq<char> {
    match entry {
        Entry::File(file) => file.name@,
        Entry::Directory(dir) => dir.name@,
        Entry::Symlink(link) => link.name@,
    }
}

/// The place of the first entry with a name from `from` on; the number of entries if there is
/// none.
pub open spec fn find_name(entries: Seq<Entry>, name: Seq<char>, from: int) -> int
    decreases entries.len() - from,
{
    if from < 0 || from >= entries.len() {
        entries.len() as int
    } else if entry_name(entries[from]) == name {
        from
    } else {
        find_name(entries, name, from + 1)
    }
}

/// The directory at a path.
pub open spec fn directory_at(entries: Seq<Entry>, path: Seq<Seq<char>>) -> Option<DirectoryEntry>
    decreases path.len(),
{
    if path.len() == 0 {
        None
    } else {
        let i = find_name(entries, path[0], 0);
        if i >= entries.len() {
            None
        } else {
            match entries[i] {
                Entry::Directory(dir) => if path.len() == 1 {
                    Some(*dir)
                } else {
                    directory_at(dir.entries@, path.drop_first())
                },
                _ => None,
            }
        }
    }
}

/// Whether entries are others with the directory at a path replaced.
pub open spec fn replaced_at(
    old: Seq<Entry>,
    new: Seq<Entry>,
    path: Seq<Seq<char>>,
    dir: DirectoryEntry,
) -> bool
    decreases path.len(),
{
    let i = find_name(old, path[0], 0);
    &&& path.len() > 0
    &&& i < old.len()
    &&& new.len() == old.len()
    &&& forall|j: int| 0 <= j < old.len() && j != i ==> new[j] == old[j]
    &&& old[i] is Directory && new[i] is Directory
    &&& if path.len() == 1 {
        *new[i]->Directory_0 == dir
    } else {
        let before = *old[i]->Directory_0;
        let after = *new[i]->Directory_0;
        &&& after.name == before.name
        &&& after.mode == before.mode
        &&& after.owner == before.owner
        &&& after.mtime == before.mtime
        &&& replaced_at(before.entries@, after.entries@, path.drop_first(), dir)
    }
}

fn name_of(entry: &Entry) -> (name: &str)
    ensures
        name@ == entry_name(*entry),
{
    match entry {
        Entry::File(file) => file.name.as_str(),
        Entry::Directory(dir) => dir.name.as_str(),
        Entry::Symlink(link) => link.name.as_str(),
    }
}

proof fn find_name_finds(entries: Seq<Entry>, name: Seq<char>, from: int, i: int)
    requires
        0 <= from <= i <= entries.len(),
        forall|j: int| from <= j < i ==> entry_name(#[trigger] entries[j]) != name,
        i < entries.len() ==> entry_name(entries[i]) == name,
    ensures
        find_name(entries, name, from) == i,
    decreases i - from,
{
    if from < i {
        find_name_finds(entries, name, from + 1, i);
    }
}

fn position(entries: &Vec<Entry>, name: &str) -> (i: usize)
    ensures
        i == find_name(entries@, name@, 0),
        i <= entries@.len(),
{
    let mut i: usize = 0;
    while i < entries.len()
        invariant
            i <= entries@.len(),
            forall|j: int| 0 <= j < i ==> entry_name(#[trigger] entries@[j]) != name@,
        decreases entries@.len() - i,
    {
        if text::same_text(name_of(&entries[i]), name) {
            proof {
                find_name_finds(entries@, name@, 0, i as int);
            }
            return i;
        }
        i = i + 1;
    }
    proof {
        find_name_finds(entries@, name@, 0, i as int);
    }
    i
}

/// Whether there is a directory at the path made of some of the parts.
fn has_directory(entries: &Vec<Entry>, path: &Vec<String>, from: usize, to: usize) -> (found: bool)
    requires
        from <= to <= path@.len(),
    ensures
        found == directory_at(
            entries@,
            names::texts(path@).subrange(from as int, to as int),
        ) is Some,
    decreases to - from,
{
    let ghost below = names::texts(path@).subrange(from as int, to as int);
    if from == to {
        return false;
    }
    assert(below[0] == path@[from as int]@);
    let i: usize = position(entries, path[from].as_str());
    if i >= entries.len() {
        return false;
    }
    match &entries[i] {
        Entry::Directory(dir) => {
            if to - from == 1 {
                true
            } else {
                assert(below.drop_first() =~= names::texts(path@).subrange(from + 1, to as int));
                has_directory(&dir.entries, path, from + 1, to)
            }
        },
        _ => false,
    }
}

/// The directory at the path made of some of the parts.
fn find_directory<'a>(
    entries: &'a mut Vec<Entry>,
    path: &Vec<String>,
    from: usize,
    to: usize,
) -> (dir: &'a mut Box<DirectoryEntry>)
    requires
        from < to <= path@.len(),
        directory_at(
            old(entries)@,
            names::texts(path@).subrange(from as int, to as int),
        ) is Some,
    ensures
        ({
            let below = names::texts(path@).subrange(from as int, to as int);
            &&& directory_at(old(entries)@, below) == Some(**dir)
            &&& replaced_at(old(entries)@, final(entries)@, below, **final(dir))
        }),
    decreases to - from,
{
    let ghost below = names::texts(path@).subrange(from as int, to as int);
    assert(below[0] == path@[from as int]@);
    let i: usize = position(entries, path[from].as_str());
    match &mut entries[i] {
        Entry::Directory(dir) => {
            if to - from == 1 {
                dir
            } else {
                assert(below.drop_first() =~= names::texts(path@).subrange(
                    from + 1,
                    to as int,
                ));
                find_directory(&mut dir.entries, path, from + 1, to)
            }
        },
        _ => {
            proof {
                assert(false);
            }
            vstd::pervasive::unreached()
        },
    }
}

impl Repository {
    /// The directory in an archive that the entry at `path` is in. The top of the archive is no entry,
    /// so a path of one part has none.
    pub fn archive_path_parent<'a>(entries: &'a mut Vec<Entry>, path: &Vec<String>) -> (parent: Option<
        &'a mut Box<DirectoryEntry>,
    >)
        ensures
            ({
                let model = names::texts(path@);
                match parent {
                    Some(dir) => {
                        &&& path@.len() > 0
                        &&& directory_at(old(entries)@, model.drop_last()) == Some(**dir)
                        &&& replaced_at(
                            old(entries)@,
                            final(entries)@,
                            model.drop_last(),
                            **final(dir),
                        )
                    },
                    None => {
                        &&& path@.len() > 0 ==> directory_at(
                            old(entries)@,
                            model.drop_last(),
                        ) is None
                        &&& *final(entries) == *old(entries)
                    },
                }
            }),
    {
        let len: usize = path.len();
        if len == 0 {
            return None;
        }
        assert(names::texts(path@).subrange(0, len - 1) =~= names::texts(path@).drop_last());
        if !has_directory(entries, path, 0, len - 1) {
            return None;
        }
        assert(len - 1 > 0);
        Some(find_directory(entries, path, 0, len - 1))
    }
}

/// An entry is found by its name: the first that has it.
pub proof fn entries_are_found_by_name(entries: Seq<Entry>, name: Seq<char>)
    ensures
        0 <= find_name(entries, name, 0) <= entries.len(),
        find_name(entries, name, 0) < entries.len() ==> entry_name(
            entries[find_name(entries, name, 0)],
        ) == name,
        forall|i: int|
            0 <= i < find_name(entries, name, 0) ==> entry_name(#[trigger] entries[i]) != name,
{
    first_with_name(entries, name, 0);
}

proof fn first_with_name(entries: Seq<Entry>, name: Seq<char>, from: int)
    requires
        0 <= from <= entries.len(),
    ensures
        from <= find_name(entries, name, from) <= entries.len(),
        find_name(entries, name, from) < entries.len() ==> entry_name(
            entries[find_name(entries, name, from)],
        ) == name,
        forall|i: int|
            from <= i < find_name(entries, name, from) ==> entry_name(#[trigger] entries[i])
                != name,
    decreases entries.len() - from,
{
    if from < entries.len() && entry_name(entries[from]) != name {
        first_with_name(entries, name, from + 1);
    }
}

/// A name is that of the entry, whatever the entry is.
pub proof fn names_of_entries(entry: Entry)
    ensures
        match entry {
            Entry::File(file) => entry_name(entry) == file.name@,
            Entry::Directory(dir) => entry_name(entry) == dir.name@,
            Entry::Symlink(link) => entry_name(entry) == link.name@,
        },
{
}

/// Directories are found part by part: the first part among the entries, and the rest in the
/// directory that has it. What is not a directory has nothing in it.
pub proof fn directories_are_found_by_parts(
    entries: Seq<Entry>,
    first: Seq<char>,
    rest: Seq<Seq<char>>,
)
    ensures
        directory_at(entries, Seq::empty()) is None,
        ({
            let i = find_name(entries, first, 0);
            let found = directory_at(entries, seq![first] + rest);
            if 0 <= i < entries.len() && entries[i] is Directory {
                if rest.len() == 0 {
                    found == Some(*entries[i]->Directory_0)
                } else {
                    found == directory_at(entries[i]->Directory_0.entries@, rest)
                }
            } else {
                found is None
            }
        }),
{
    entries_are_found_by_name(entries, first);
    assert((seq![first] + rest).drop_first() =~= rest);
    if rest.len() == 0 {
        assert(seq![first] + rest =~= seq![first]);
    }
}

/// Changing a directory changes nothing else: the directory at the path is the new one, and every
/// entry that is not on the path is as it was.
pub proof fn one_directory_changes(
    old: Seq<Entry>,
    new: Seq<Entry>,
    first: Seq<char>,
    rest: Seq<Seq<char>>,
    dir: DirectoryEntry,
)
    requires
        replaced_at(old, new, seq![first] + rest, dir),
    ensures
        ({
            let i = find_name(old, first, 0);
            &&& 0 <= i < old.len()
            &&& new.len() == old.len()
            &&& forall|j: int| 0 <= j < old.len() && j != i ==> #[trigger] new[j] == old[j]
            &&& old[i] is Directory && new[i] is Directory
            &&& rest.len() == 0 ==> *new[i]->Directory_0 == dir
            &&& rest.len() > 0 ==> {
                &&& new[i]->Directory_0.name == old[i]->Directory_0.name
                &&& new[i]->Directory_0.mode == old[i]->Directory_0.mode
                &&& new[i]->Directory_0.owner == old[i]->Directory_0.owner
                &&& new[i]->Directory_0.mtime == old[i]->Directory_0.mtime
                &&& replaced_at(
                    old[i]->Directory_0.entries@,
                    new[i]->Directory_0.entries@,
                    rest,
                    dir,
                )
            }
        }),
{
    entries_are_found_by_name(old, first);
    assert((seq![first] + rest).drop_first() =~= rest);
    assert((seq![first] + rest)[0] == first);
}

} // verus!
