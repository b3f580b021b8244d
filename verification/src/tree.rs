//! Entries that come one by one, each with its parent directory, nested into a tree.
use crate::entries::{Entry, FileEntry, SymlinkEntry, Timestamp};
use vstd::prelude::*;

verus! {

/// The parts of a path below the backup root. A part that is not Unicode is `None`.
pub type Parts = Vec<Option<String>>;

/// The parts of a path, by value.
pub open spec fn path_model(parts: Seq<Option<String>>) -> Seq<Option<Seq<char>>> {
    parts.map_values(
        |part: Option<String>|
            match part {
                Some(text) => Some(text@),
                None => None,
            },
    )
}

/// The mathematical value of an [`Entry`].
pub enum Tree {
    File(FileEntry),
    Directory(Seq<char>, u32, (u32, u32), Timestamp, Seq<Tree>),
    Symlink(SymlinkEntry),
}

pub open spec fn tree_of(entry: Entry) -> Tree
    decreases entry,
{
    match entry {
        Entry::File(file) => Tree::File(*file),
        Entry::Directory(dir) => Tree::Directory(
            dir.name@,
            dir.mode,
            dir.owner,
            dir.mtime,
            trees_of(dir.entries@),
        ),
        Entry::Symlink(link) => Tree::Symlink(*link),
    }
}

pub open spec fn trees_of(entries: Seq<Entry>) -> Seq<Tree>
    decreases entries,
{
    if entries.len() == 0 {
        Seq::empty()
    } else {
        trees_of(entries.drop_last()).push(tree_of(entries.last()))
    }
}

/// The entries that were gathered for one parent directory.
#[derive(Debug)]
pub struct Group {
    pub path: Parts,
    pub entries: Vec<Entry>,
}

pub open spec fn group_model(group: Group) -> (Seq<Option<Seq<char>>>, Seq<Tree>) {
    (path_model(group.path@), trees_of(group.entries@))
}

/// A parent's path and what was gathered for it.
pub type GroupModel = (Seq<Option<Seq<char>>>, Seq<Tree>);

pub open spec fn groups_model(groups: Seq<Group>) -> Seq<GroupModel> {
    groups.map_values(|group: Group| group_model(group))
}

/// The place of the first group for a path from `from` on; the number of groups if there is none.
pub open spec fn find_group(
    groups: Seq<GroupModel>,
    path: Seq<Option<Seq<char>>>,
    from: int,
) -> int
    decreases groups.len() - from,
{
    if from < 0 || from >= groups.len() {
        groups.len() as int
    } else if groups[from].0 == path {
        from
    } else {
        find_group(groups, path, from + 1)
    }
}

/// The groups with one more entry: behind the others of its parent, or in a new group.
pub open spec fn added(
    groups: Seq<GroupModel>,
    path: Seq<Option<Seq<char>>>,
    tree: Tree,
) -> Seq<GroupModel> {
    let i = find_group(groups, path, 0);
    if i < groups.len() {
        groups.update(i, (path, groups[i].1.push(tree)))
    } else {
        groups.push((path, seq![tree]))
    }
}

/// No two groups are for one path.
pub open spec fn distinct_paths(groups: Seq<GroupModel>) -> bool {
    forall|i: int, j: int|
        0 <= i < j < groups.len() ==> (#[trigger] groups[i]).0 != (#[trigger] groups[j]).0
}

/// The tree below `dir`, and the groups that it does not use. A group is used once, by the first
/// directory that has its path.
pub open spec fn assembled(dir: Seq<Option<Seq<char>>>, groups: Seq<GroupModel>) -> (
    Seq<Tree>,
    Seq<GroupModel>,
)
    decreases groups.len(), 0nat,
{
    let i = find_group(groups, dir, 0);
    if 0 <= i < groups.len() {
        filled(dir, groups[i].1, groups.remove(i))
    } else {
        (Seq::empty(), groups)
    }
}

/// The entries of `dir` with what is in each directory among them, in order, and the groups that
/// are left.
pub open spec fn filled(
    dir: Seq<Option<Seq<char>>>,
    entries: Seq<Tree>,
    groups: Seq<GroupModel>,
) -> (Seq<Tree>, Seq<GroupModel>)
    decreases groups.len(), 1 + entries.len(),
{
    if entries.len() == 0 {
        (Seq::empty(), groups)
    } else {
        let (front, left) = filled(dir, entries.drop_last(), groups);
        match entries.last() {
            Tree::Directory(name, mode, owner, mtime, inside) => if left.len() <= groups.len() {
                let (below, rest) = assembled(dir.push(Some(name)), left);
                (front.push(Tree::Directory(name, mode, owner, mtime, below)), rest)
            } else {
                (front.push(entries.last()), left)
            },
            other => (front.push(other), left),
        }
    }
}

/// Assembling a tree makes no new groups.
proof fn assembled_uses_groups(dir: Seq<Option<Seq<char>>>, groups: Seq<GroupModel>)
    ensures
        assembled(dir, groups).1.len() <= groups.len(),
    decreases groups.len(), 0nat,
{
    let i = find_group(groups, dir, 0);
    if 0 <= i < groups.len() {
        filled_uses_groups(dir, groups[i].1, groups.remove(i));
    }
}

proof fn filled_uses_groups(
    dir: Seq<Option<Seq<char>>>,
    entries: Seq<Tree>,
    groups: Seq<GroupModel>,
)
    ensures
        filled(dir, entries, groups).0.len() == entries.len(),
        filled(dir, entries, groups).1.len() <= groups.len(),
    decreases groups.len(), 1 + entries.len(),
{
    if entries.len() > 0 {
        filled_uses_groups(dir, entries.drop_last(), groups);
        if let Tree::Directory(name, _, _, _, _) = entries.last() {
            let left = filled(dir, entries.drop_last(), groups).1;
            assembled_uses_groups(dir.push(Some(name)), left);
        }
    }
}

proof fn find_group_finds(groups: Seq<GroupModel>, path: Seq<Option<Seq<char>>>, from: int, i: int)
    requires
        0 <= from <= i <= groups.len(),
        forall|j: int| from <= j < i ==> (#[trigger] groups[j]).0 != path,
        i < groups.len() ==> groups[i].0 == path,
    ensures
        find_group(groups, path, from) == i,
    decreases i - from,
{
    if from < i {
        find_group_finds(groups, path, from + 1, i);
    }
}

fn same_path(a: &Parts, b: &Parts) -> (same: bool)
    ensures
        same == (path_model(a@) == path_model(b@)),
{
    if a.len() != b.len() {
        assert(path_model(a@).len() != path_model(b@).len());
        return false;
    }
    let mut i: usize = 0;
    while i < a.len()
        invariant
            i <= a@.len(),
            a@.len() == b@.len(),
            forall|j: int| 0 <= j < i ==> path_model(a@)[j] == path_model(b@)[j],
        decreases a@.len() - i,
    {
        let same_part = match (&a[i], &b[i]) {
            (Some(x), Some(y)) => *x == *y,
            (None, None) => true,
            _ => false,
        };
        if !same_part {
            assert(path_model(a@)[i as int] != path_model(b@)[i as int]);
            return false;
        }
        i = i + 1;
    }
    assert(path_model(a@) =~= path_model(b@));
    true
}

/// The place of the first group for a path; the number of groups if there is none.
fn position(groups: &Vec<Group>, path: &Parts) -> (i: usize)
    ensures
        i == find_group(groups_model(groups@), path_model(path@), 0),
        i <= groups@.len(),
        i < groups@.len() ==> groups_model(groups@)[i as int].0 == path_model(path@),
{
    let mut i: usize = 0;
    while i < groups.len()
        invariant
            i <= groups@.len(),
            forall|j: int|
                0 <= j < i ==> (#[trigger] groups_model(groups@)[j]).0 != path_model(path@),
        decreases groups@.len() - i,
    {
        if same_path(&groups[i].path, path) {
            proof {
                find_group_finds(groups_model(groups@), path_model(path@), 0, i as int);
            }
            return i;
        }
        i = i + 1;
    }
    proof {
        find_group_finds(groups_model(groups@), path_model(path@), 0, i as int);
    }
    i
}

/// Gathers an entry under its parent directory.
pub fn add_entry(groups: &mut Vec<Group>, parent: Parts, entry: Entry)
    ensures
        groups_model(final(groups)@) == added(
            groups_model(old(groups)@),
            path_model(parent@),
            tree_of(entry),
        ),
{
    let i: usize = position(groups, &parent);
    let ghost before = groups@;
    if i < groups.len() {
        let ghost gathered = groups@[i as int].entries@;
        groups[i].entries.push(entry);
        proof {
            let now = groups@[i as int].entries@;
            assert(now =~= gathered.push(entry));
            assert(now.drop_last() =~= gathered);
            assert(groups_model(groups@) =~= added(
                groups_model(before),
                path_model(parent@),
                tree_of(entry),
            ));
        }
    } else {
        let mut entries: Vec<Entry> = Vec::new();
        entries.push(entry);
        proof {
            reveal_with_fuel(trees_of, 2);
            assert(entries@.drop_last() =~= Seq::empty());
            assert(trees_of(entries@) =~= seq![tree_of(entry)]);
        }
        groups.push(Group { path: parent, entries });
        assert(groups_model(groups@) =~= added(
            groups_model(before),
            path_model(parent@),
            tree_of(entry),
        ));
    }
}

/// Gathering keeps one group to a path.
pub proof fn adding_keeps_paths_distinct(
    groups: Seq<GroupModel>,
    path: Seq<Option<Seq<char>>>,
    tree: Tree,
)
    requires
        distinct_paths(groups),
    ensures
        distinct_paths(added(groups, path, tree)),
{
    find_group_result(groups, path, 0);
    let i = find_group(groups, path, 0);
    let more = added(groups, path, tree);
    assert forall|a: int, b: int| 0 <= a < b < more.len() implies (#[trigger] more[a]).0 != (
    #[trigger] more[b]).0 by {
        if i < groups.len() {
            assert(more[a].0 == groups[a].0 && more[b].0 == groups[b].0);
        } else if b == groups.len() {
            assert(groups[a].0 != path);
        } else {
            assert(more[a].0 == groups[a].0 && more[b].0 == groups[b].0);
        }
    }
}

pub proof fn find_group_result(groups: Seq<GroupModel>, path: Seq<Option<Seq<char>>>, from: int)
    requires
        0 <= from <= groups.len(),
    ensures
        from <= find_group(groups, path, from) <= groups.len(),
        find_group(groups, path, from) < groups.len() ==> groups[find_group(groups, path, from)].0
            == path,
        forall|j: int|
            from <= j < find_group(groups, path, from) ==> (#[trigger] groups[j]).0 != path,
    decreases groups.len() - from,
{
    if from < groups.len() && groups[from].0 != path {
        find_group_result(groups, path, from + 1);
    }
}

/// Nests entries collected per parent directory into a tree, starting at `dir`.
pub fn assemble(dir: &Parts, groups: &mut Vec<Group>) -> (entries: Vec<Entry>)
    ensures
        trees_of(entries@) == assembled(path_model(dir@), groups_model(old(groups)@)).0,
        groups_model(final(groups)@) == assembled(
            path_model(dir@),
            groups_model(old(groups)@),
        ).1,
        final(groups)@.len() <= old(groups)@.len(),
    decreases old(groups)@.len(),
{
    let i: usize = position(groups, dir);
    if i >= groups.len() {
        return Vec::new();
    }
    let ghost before = groups@;
    let group = groups.remove(i);
    let ghost path = path_model(dir@);
    let ghost left = groups@;
    let ghost gathered = group.entries@;
    proof {
        assert(groups_model(left) =~= groups_model(before).remove(i as int));
        assert(gathered.take(0) =~= Seq::empty());
    }
    let mut entries = group.entries;
    let mut k: usize = 0;
    while k < entries.len()
        invariant
            entries@.len() == gathered.len(),
            k <= entries@.len(),
            path == path_model(dir@),
            left.len() < old(groups)@.len(),
            groups@.len() <= left.len(),
            forall|j: int| k <= j < entries@.len() ==> entries@[j] == gathered[j],
            (trees_of(entries@.take(k as int)), groups_model(groups@)) == filled(
                path,
                trees_of(gathered.take(k as int)),
                groups_model(left),
            ),
        decreases entries@.len() - k,
    {
        let ghost done = entries@.take(k as int);
        let ghost unused = groups@;
        proof {
            reveal_with_fuel(trees_of, 2);
            reveal_with_fuel(tree_of, 2);
            assert(gathered.take(k + 1).drop_last() =~= gathered.take(k as int));
            assert(gathered.take(k + 1).last() == gathered[k as int]);
            let more = trees_of(gathered.take(k + 1));
            assert(more.drop_last() =~= trees_of(gathered.take(k as int)));
        }
        let name: Option<String> = match &entries[k] {
            Entry::Directory(sub_dir) => Some(sub_dir.name.clone()),
            _ => None,
        };
        if let Some(name) = name {
            let mut sub_path = dir.clone();
            sub_path.push(Some(name));
            proof {
                assert(path_model(sub_path@) =~= path.push(Some(name@)));
            }
            let below = assemble(&sub_path, groups);
            if let Entry::Directory(sub_dir) = &mut entries[k] {
                sub_dir.entries = below;
            }
            proof {
                let entry = entries@[k as int];
                assert(tree_of(entry) == Tree::Directory(
                    entry->Directory_0.name@,
                    entry->Directory_0.mode,
                    entry->Directory_0.owner,
                    entry->Directory_0.mtime,
                    trees_of(below@),
                ));
            }
        }
        proof {
            let more = trees_of(gathered.take(k + 1));
            assert(entries@.take(k + 1).drop_last() =~= done);
            assert(entries@.take(k + 1).last() == entries@[k as int]);
            assert(more.last() == tree_of(gathered[k as int]));
            assert(filled(path, more.drop_last(), groups_model(left)) == (
                trees_of(done),
                groups_model(unused),
            ));
            assert(filled(path, more, groups_model(left)).0 =~= trees_of(entries@.take(k + 1)));
        }
        k = k + 1;
    }
    proof {
        assert(entries@.take(k as int) =~= entries@);
        assert(gathered.take(k as int) =~= gathered);
    }
    entries
}

/// What was gathered for a directory.
pub open spec fn gathered_for(groups: Seq<GroupModel>, path: Seq<Option<Seq<char>>>) -> Seq<Tree> {
    let i = find_group(groups, path, 0);
    if 0 <= i < groups.len() {
        groups[i].1
    } else {
        Seq::empty()
    }
}

/// An entry more for a directory comes behind the others that were gathered for it; what was
/// gathered for other directories stays.
pub proof fn gathered_after_adding(
    groups: Seq<GroupModel>,
    path: Seq<Option<Seq<char>>>,
    tree: Tree,
    dir: Seq<Option<Seq<char>>>,
)
    ensures
        gathered_for(added(groups, path, tree), dir) == if dir == path {
            gathered_for(groups, dir).push(tree)
        } else {
            gathered_for(groups, dir)
        },
{
    let more = added(groups, path, tree);
    find_group_result(groups, path, 0);
    find_group_result(groups, dir, 0);
    let i = find_group(groups, path, 0);
    let k = find_group(groups, dir, 0);
    if dir == path {
        assert forall|j: int| 0 <= j < i implies (#[trigger] more[j]).0 != path by {
            assert(groups[j].0 != path);
        }
        find_group_finds(more, path, 0, i);
        if i >= groups.len() {
            assert(Seq::<Tree>::empty().push(tree) =~= seq![tree]);
        }
    } else {
        assert forall|j: int| 0 <= j < k implies (#[trigger] more[j]).0 != dir by {
            assert(groups[j].0 != dir);
        }
        if k < groups.len() {
            find_group_finds(more, dir, 0, k);
        } else {
            assert forall|j: int| 0 <= j < more.len() implies (#[trigger] more[j]).0 != dir by {
                if j < groups.len() {
                    assert(groups[j].0 != dir);
                }
            }
            find_group_finds(more, dir, 0, more.len() as int);
        }
    }
}

/// Whether a path lies in a directory, or is that directory.
pub open spec fn lies_in(path: Seq<Option<Seq<char>>>, dir: Seq<Option<Seq<char>>>) -> bool {
    path.len() >= dir.len() && path.take(dir.len() as int) == dir
}

/// The tree below a directory, `depth` levels deep: what was gathered for it, and in each
/// directory among that, the tree below that one.
pub open spec fn nested(
    groups: Seq<GroupModel>,
    dir: Seq<Option<Seq<char>>>,
    depth: nat,
) -> Seq<Tree>
    decreases depth, 0nat,
{
    if depth == 0 {
        Seq::empty()
    } else {
        nested_entries(groups, dir, gathered_for(groups, dir), (depth - 1) as nat)
    }
}

pub open spec fn nested_entries(
    groups: Seq<GroupModel>,
    dir: Seq<Option<Seq<char>>>,
    entries: Seq<Tree>,
    depth: nat,
) -> Seq<Tree>
    decreases depth, 1 + entries.len(),
{
    if entries.len() == 0 {
        Seq::empty()
    } else {
        nested_entries(groups, dir, entries.drop_last(), depth).push(
            match entries.last() {
                Tree::Directory(name, mode, owner, mtime, _) => Tree::Directory(
                    name,
                    mode,
                    owner,
                    mtime,
                    nested(groups, dir.push(Some(name)), depth),
                ),
                other => other,
            },
        )
    }
}

/// Whether no two directories among entries have one name.
pub open spec fn siblings_differ(entries: Seq<Tree>) -> bool {
    forall|i: int, j: int|
        0 <= i < j < entries.len() && entries[i] is Directory && entries[j] is Directory
            ==> (#[trigger] entries[i])->Directory_0 != (#[trigger] entries[j])->Directory_0
}

/// Whether the groups are those of a file system: one to a path, and in each the directories have
/// names of their own.
pub open spec fn well_gathered(groups: Seq<GroupModel>) -> bool {
    &&& distinct_paths(groups)
    &&& forall|i: int| 0 <= i < groups.len() ==> siblings_differ((#[trigger] groups[i]).1)
}

/// Whether no path in a directory is `depth` levels below it, or deeper.
pub open spec fn within_depth(
    groups: Seq<GroupModel>,
    dir: Seq<Option<Seq<char>>>,
    depth: nat,
) -> bool {
    forall|i: int|
        0 <= i < groups.len() && lies_in((#[trigger] groups[i]).0, dir) ==> groups[i].0.len()
            < dir.len() + depth
}

/// Whether groups are some of others.
spec fn some_of(groups: Seq<GroupModel>, others: Seq<GroupModel>) -> bool {
    &&& distinct_paths(groups)
    &&& forall|i: int| 0 <= i < groups.len() ==> others.contains(#[trigger] groups[i])
}

spec fn agree_in(a: Seq<GroupModel>, b: Seq<GroupModel>, dir: Seq<Option<Seq<char>>>) -> bool {
    forall|path: Seq<Option<Seq<char>>>|
        lies_in(path, dir) ==> #[trigger] gathered_for(a, path) == gathered_for(b, path)
}

pub proof fn gathered_for_group(groups: Seq<GroupModel>, i: int)
    requires
        distinct_paths(groups),
        0 <= i < groups.len(),
    ensures
        find_group(groups, groups[i].0, 0) == i,
        gathered_for(groups, groups[i].0) == groups[i].1,
{
    find_group_finds(groups, groups[i].0, 0, i);
}

proof fn gathered_without(groups: Seq<GroupModel>, i: int, path: Seq<Option<Seq<char>>>)
    requires
        distinct_paths(groups),
        0 <= i < groups.len(),
        path != groups[i].0,
    ensures
        gathered_for(groups.remove(i), path) == gathered_for(groups, path),
        distinct_paths(groups.remove(i)),
{
    let rest = groups.remove(i);
    assert forall|a: int, b: int| 0 <= a < b < rest.len() implies (#[trigger] rest[a]).0 != (
    #[trigger] rest[b]).0 by {
        let x = if a < i {
            a
        } else {
            a + 1
        };
        let y = if b < i {
            b
        } else {
            b + 1
        };
        assert(rest[a] == groups[x] && rest[b] == groups[y]);
    }
    find_group_result(groups, path, 0);
    let k = find_group(groups, path, 0);
    if k < groups.len() {
        let j = if k < i {
            k
        } else {
            k - 1
        };
        assert(rest[j] == groups[k]);
        gathered_for_group(rest, j);
    } else {
        assert forall|j: int| 0 <= j < rest.len() implies (#[trigger] rest[j]).0 != path by {
            assert(rest[j] == groups[if j < i {
                j
            } else {
                j + 1
            }]);
        }
        find_group_finds(rest, path, 0, rest.len() as int);
    }
}

proof fn some_of_keeps(
    groups: Seq<GroupModel>,
    others: Seq<GroupModel>,
    dir: Seq<Option<Seq<char>>>,
    depth: nat,
)
    requires
        some_of(groups, others),
        well_gathered(others),
    ensures
        well_gathered(groups),
        within_depth(others, dir, depth) ==> within_depth(groups, dir, depth),
{
    assert forall|i: int| 0 <= i < groups.len() implies siblings_differ(
        (#[trigger] groups[i]).1,
    ) by {
        let j = choose|j: int| 0 <= j < others.len() && others[j] == groups[i];
        assert(siblings_differ(others[j].1));
    }
    if within_depth(others, dir, depth) {
        assert forall|i: int|
            0 <= i < groups.len() && lies_in((#[trigger] groups[i]).0, dir) implies groups[i].0.len()
            < dir.len() + depth by {
            let j = choose|j: int| 0 <= j < others.len() && others[j] == groups[i];
            assert(lies_in(others[j].0, dir));
        }
    }
}

proof fn nested_agrees(
    a: Seq<GroupModel>,
    b: Seq<GroupModel>,
    dir: Seq<Option<Seq<char>>>,
    depth: nat,
)
    requires
        agree_in(a, b, dir),
    ensures
        nested(a, dir, depth) == nested(b, dir, depth),
    decreases depth, 0nat,
{
    if depth > 0 {
        assert(lies_in(dir, dir)) by {
            assert(dir.take(dir.len() as int) =~= dir);
        }
        assert(gathered_for(a, dir) == gathered_for(b, dir));
        nested_entries_agree(a, b, dir, gathered_for(a, dir), (depth - 1) as nat);
    }
}

proof fn nested_entries_agree(
    a: Seq<GroupModel>,
    b: Seq<GroupModel>,
    dir: Seq<Option<Seq<char>>>,
    entries: Seq<Tree>,
    depth: nat,
)
    requires
        forall|path: Seq<Option<Seq<char>>>|
            lies_in(path, dir) && path != dir ==> #[trigger] gathered_for(a, path) == gathered_for(
                b,
                path,
            ),
    ensures
        nested_entries(a, dir, entries, depth) == nested_entries(b, dir, entries, depth),
    decreases depth, 1 + entries.len(),
{
    if entries.len() > 0 {
        nested_entries_agree(a, b, dir, entries.drop_last(), depth);
        if let Tree::Directory(name, _, _, _, _) = entries.last() {
            let sub = dir.push(Some(name));
            assert forall|path: Seq<Option<Seq<char>>>| lies_in(path, sub) implies #[trigger]
                gathered_for(a, path) == gathered_for(b, path) by {
                below_is_in(path, dir, Some(name));
            }
            nested_agrees(a, b, sub, depth);
        }
    }
}

pub proof fn below_is_in(
    path: Seq<Option<Seq<char>>>,
    dir: Seq<Option<Seq<char>>>,
    name: Option<Seq<char>>,
)
    requires
        lies_in(path, dir.push(name)),
    ensures
        lies_in(path, dir),
        path != dir,
        path[dir.len() as int] == name,
{
    let sub = dir.push(name);
    assert(path.take(dir.len() as int) =~= sub.take(dir.len() as int));
    assert(sub.take(dir.len() as int) =~= dir);
    assert(path.take(sub.len() as int)[dir.len() as int] == sub[dir.len() as int]);
}

/// Nesting gives each directory what was gathered for its path, and each of them once: the tree is
/// the one that was walked. `depth` is any depth that no path reaches.
pub proof fn assembled_is_nested(
    dir: Seq<Option<Seq<char>>>,
    groups: Seq<GroupModel>,
    depth: nat,
)
    requires
        well_gathered(groups),
        within_depth(groups, dir, depth),
    ensures
        assembled(dir, groups).0 == nested(groups, dir, depth),
{
    assembling(dir, groups, depth);
}

proof fn assembling(dir: Seq<Option<Seq<char>>>, groups: Seq<GroupModel>, depth: nat)
    requires
        well_gathered(groups),
        within_depth(groups, dir, depth),
    ensures
        assembled(dir, groups).0 == nested(groups, dir, depth),
        some_of(assembled(dir, groups).1, groups),
        forall|path: Seq<Option<Seq<char>>>|
            !lies_in(path, dir) ==> #[trigger] gathered_for(assembled(dir, groups).1, path)
                == gathered_for(groups, path),
    decreases groups.len(), 0nat,
{
    find_group_result(groups, dir, 0);
    let i = find_group(groups, dir, 0);
    assert(dir.take(dir.len() as int) =~= dir);
    if i < groups.len() {
        let rest = groups.remove(i);
        let entries = groups[i].1;
        assert(lies_in(groups[i].0, dir));
        assert(depth > 0);
        gathered_for_group(groups, i);
        assert forall|path: Seq<Option<Seq<char>>>| path != dir implies #[trigger] gathered_for(
            rest,
            path,
        ) == gathered_for(groups, path) by {
            gathered_without(groups, i, path);
        }
        removed_is_some_of(groups, i);
        some_of_keeps(rest, groups, dir, depth);
        filling(dir, entries, rest, (depth - 1) as nat);
        nested_entries_agree(rest, groups, dir, entries, (depth - 1) as nat);
        let left = filled(dir, entries, rest).1;
        some_of_some(left, rest, groups);
        assert forall|path: Seq<Option<Seq<char>>>| !lies_in(path, dir) implies #[trigger]
            gathered_for(left, path) == gathered_for(groups, path) by {
            assert(path != dir);
            assert(gathered_for(rest, path) == gathered_for(groups, path));
            assert(outside(path, dir, entries)) by {
                assert forall|k: int| 0 <= k < entries.len() implies !(entries[k] is Directory
                    && lies_in(path, dir.push(Some((#[trigger] entries[k])->Directory_0)))) by {
                    if entries[k] is Directory && lies_in(
                        path,
                        dir.push(Some(entries[k]->Directory_0)),
                    ) {
                        below_is_in(path, dir, Some(entries[k]->Directory_0));
                    }
                }
            }
        }
    } else {
        if depth > 0 {
            assert(gathered_for(groups, dir) =~= Seq::empty());
        }
        assert forall|k: int| 0 <= k < groups.len() implies groups.contains(
            #[trigger] groups[k],
        ) by {}
    }
}

/// Whether a path lies in none of the directories among entries.
spec fn outside(
    path: Seq<Option<Seq<char>>>,
    dir: Seq<Option<Seq<char>>>,
    entries: Seq<Tree>,
) -> bool {
    forall|k: int|
        0 <= k < entries.len() ==> !(entries[k] is Directory && lies_in(
            path,
            dir.push(Some((#[trigger] entries[k])->Directory_0)),
        ))
}

proof fn removed_is_some_of(groups: Seq<GroupModel>, i: int)
    requires
        distinct_paths(groups),
        0 <= i < groups.len(),
    ensures
        some_of(groups.remove(i), groups),
{
    let rest = groups.remove(i);
    assert forall|a: int, b: int| 0 <= a < b < rest.len() implies (#[trigger] rest[a]).0 != (
    #[trigger] rest[b]).0 by {
        let x = if a < i {
            a
        } else {
            a + 1
        };
        let y = if b < i {
            b
        } else {
            b + 1
        };
        assert(rest[a] == groups[x] && rest[b] == groups[y]);
    }
    assert forall|k: int| 0 <= k < rest.len() implies groups.contains(#[trigger] rest[k]) by {
        assert(rest[k] == groups[if k < i {
            k
        } else {
            k + 1
        }]);
    }
}

proof fn some_of_some(a: Seq<GroupModel>, b: Seq<GroupModel>, c: Seq<GroupModel>)
    requires
        some_of(a, b),
        some_of(b, c),
    ensures
        some_of(a, c),
{
    assert forall|i: int| 0 <= i < a.len() implies c.contains(#[trigger] a[i]) by {
        let j = choose|j: int| 0 <= j < b.len() && b[j] == a[i];
        assert(c.contains(b[j]));
    }
}

proof fn filling(
    dir: Seq<Option<Seq<char>>>,
    entries: Seq<Tree>,
    groups: Seq<GroupModel>,
    depth: nat,
)
    requires
        well_gathered(groups),
        within_depth(groups, dir, depth + 1),
        siblings_differ(entries),
    ensures
        filled(dir, entries, groups).0 == nested_entries(groups, dir, entries, depth),
        some_of(filled(dir, entries, groups).1, groups),
        forall|path: Seq<Option<Seq<char>>>|
            outside(path, dir, entries) ==> #[trigger] gathered_for(
                filled(dir, entries, groups).1,
                path,
            ) == gathered_for(groups, path),
    decreases groups.len(), 1 + entries.len(),
{
    if entries.len() == 0 {
        assert forall|k: int| 0 <= k < groups.len() implies groups.contains(
            #[trigger] groups[k],
        ) by {}
    } else {
        let front = entries.drop_last();
        assert(siblings_differ(front)) by {
            assert forall|i: int, j: int|
                0 <= i < j < front.len() && front[i] is Directory
                    && front[j] is Directory implies (#[trigger] front[i])->Directory_0 != (
            #[trigger] front[j])->Directory_0 by {
                assert(front[i] == entries[i] && front[j] == entries[j]);
            }
        }
        filling(dir, front, groups, depth);
        filled_uses_groups(dir, front, groups);
        let left = filled(dir, front, groups).1;
        assert forall|path: Seq<Option<Seq<char>>>| outside(path, dir, entries) implies outside(
            path,
            dir,
            front,
        ) by {
            assert forall|k: int| 0 <= k < front.len() implies !(front[k] is Directory && lies_in(
                path,
                dir.push(Some((#[trigger] front[k])->Directory_0)),
            )) by {
                assert(front[k] == entries[k]);
            }
        }
        if let Tree::Directory(name, _, _, _, _) = entries.last() {
            let sub = dir.push(Some(name));
            some_of_keeps(left, groups, dir, depth + 1);
            assert(within_depth(left, sub, depth)) by {
                assert forall|i: int|
                    0 <= i < left.len() && lies_in((#[trigger] left[i]).0, sub) implies left[i].0.len()
                    < sub.len() + depth by {
                    below_is_in(left[i].0, dir, Some(name));
                }
            }
            assembling(sub, left, depth);
            assert(agree_in(left, groups, sub)) by {
                assert forall|path: Seq<Option<Seq<char>>>| lies_in(path, sub) implies #[trigger]
                    gathered_for(left, path) == gathered_for(groups, path) by {
                    assert(outside(path, dir, front)) by {
                        assert forall|k: int| 0 <= k < front.len() implies !(front[k] is Directory
                            && lies_in(
                            path,
                            dir.push(Some((#[trigger] front[k])->Directory_0)),
                        )) by {
                            if front[k] is Directory && lies_in(
                                path,
                                dir.push(Some(front[k]->Directory_0)),
                            ) {
                                below_is_in(path, dir, Some(front[k]->Directory_0));
                                below_is_in(path, dir, Some(name));
                                assert(entries[k] == front[k]);
                                assert(entries[entries.len() - 1] == entries.last());
                            }
                        }
                    }
                }
            }
            nested_agrees(left, groups, sub, depth);
            let rest = assembled(sub, left).1;
            some_of_some(rest, left, groups);
            assert forall|path: Seq<Option<Seq<char>>>| outside(path, dir, entries) implies
                #[trigger] gathered_for(rest, path) == gathered_for(groups, path) by {
                assert(outside(path, dir, front));
                assert(entries[entries.len() - 1] == entries.last());
                assert(!lies_in(path, sub));
                assert(gathered_for(left, path) == gathered_for(groups, path));
            }
        }
    }
}

/// The parts of a path by value, one for each and in order.
pub proof fn path_model_in_order(parts: Seq<Option<String>>, i: int)
    requires
        0 <= i < parts.len(),
    ensures
        path_model(parts).len() == parts.len(),
        parts[i] is Some ==> path_model(parts)[i] == Some(parts[i]->0@),
        parts[i] is None ==> path_model(parts)[i] is None,
{
}

/// Entries by value, one for each and in order.
pub proof fn trees_in_order(entries: Seq<Entry>, i: int)
    requires
        0 <= i < entries.len(),
    ensures
        trees_of(entries).len() == entries.len(),
        match (entries[i], trees_of(entries)[i]) {
            (Entry::File(file), Tree::File(model)) => *file == model,
            (Entry::Directory(dir), Tree::Directory(name, mode, owner, mtime, inside)) => name
                == dir.name@ && mode == dir.mode && owner == dir.owner && mtime == dir.mtime
                && inside == trees_of(dir.entries@),
            (Entry::Symlink(link), Tree::Symlink(model)) => *link == model,
            _ => false,
        },
    decreases entries.len(),
{
    reveal_with_fuel(trees_of, 2);
    reveal_with_fuel(tree_of, 2);
    if i + 1 < entries.len() {
        assert(entries.drop_last()[i] == entries[i]);
        trees_in_order(entries.drop_last(), i);
    } else if entries.len() > 1 {
        trees_in_order(entries.drop_last(), 0);
    }
}

/// What is gathered for a path grows by the new entry, behind the others; what is gathered for other
/// paths stays.
pub proof fn adding_touches_one_path(
    groups: Seq<GroupModel>,
    path: Seq<Option<Seq<char>>>,
    tree: Tree,
    i: int,
)
    requires
        0 <= i < groups.len(),
        distinct_paths(groups),
    ensures
        ({
            let more = added(groups, path, tree);
            &&& more[i].0 == groups[i].0
            &&& groups[i].0 != path ==> more[i].1 == groups[i].1
            &&& groups[i].0 == path ==> more[i].1 == groups[i].1.push(tree) && more.len()
                == groups.len()
            &&& more.len() <= groups.len() + 1
            &&& more.len() == groups.len() + 1 ==> more.last() == (path, seq![tree])
        }),
{
    find_group_result(groups, path, 0);
}

/// What is gathered for a path that nothing was gathered for yet comes behind the rest, with the new
/// entry alone.
pub proof fn adding_opens_a_path(
    groups: Seq<GroupModel>,
    path: Seq<Option<Seq<char>>>,
    tree: Tree,
)
    requires
        forall|i: int| 0 <= i < groups.len() ==> (#[trigger] groups[i]).0 != path,
    ensures
        added(groups, path, tree) == groups.push((path, seq![tree])),
{
    find_group_result(groups, path, 0);
}

/// Groups by value, one for each and in order: the path, and all entries that were gathered for it.
pub proof fn groups_in_order(groups: Seq<Group>, i: int)
    requires
        0 <= i < groups.len(),
    ensures
        groups_model(groups).len() == groups.len(),
        groups_model(groups)[i] == (path_model(groups[i].path@), trees_of(groups[i].entries@)),
{
}

/// A directory has what was gathered for its path first, and nothing if nothing was; what was
/// gathered is used once.
pub proof fn directories_have_what_was_gathered(
    dir: Seq<Option<Seq<char>>>,
    groups: Seq<GroupModel>,
    i: int,
)
    requires
        0 <= i <= groups.len(),
        forall|j: int| 0 <= j < i ==> (#[trigger] groups[j]).0 != dir,
        i < groups.len() ==> groups[i].0 == dir,
    ensures
        i == groups.len() ==> assembled(dir, groups) == (Seq::<Tree>::empty(), groups),
        i < groups.len() ==> assembled(dir, groups) == filled(dir, groups[i].1, groups.remove(i)),
{
    find_group_finds(groups, dir, 0, i);
}

/// The entries of a directory come one by one and in order. Among them a directory gets what was
/// gathered for it, out of what those in front of it have left; all else is as it was gathered.
pub proof fn entries_are_filled_in_order(
    dir: Seq<Option<Seq<char>>>,
    front: Seq<Tree>,
    last: Tree,
    groups: Seq<GroupModel>,
)
    ensures
        filled(dir, Seq::empty(), groups) == (Seq::<Tree>::empty(), groups),
        ({
            let (done, left) = filled(dir, front, groups);
            match last {
                Tree::Directory(name, mode, owner, mtime, _) => {
                    let (below, rest) = assembled(dir.push(Some(name)), left);
                    filled(dir, front.push(last), groups) == (
                        done.push(Tree::Directory(name, mode, owner, mtime, below)),
                        rest,
                    )
                },
                other => filled(dir, front.push(last), groups) == (done.push(other), left),
            }
        }),
{
    filled_uses_groups(dir, front, groups);
    assert(front.push(last).drop_last() =~= front);
    assert(front.push(last).last() == last);
}

} // verus!
