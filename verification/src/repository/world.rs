//! What a repository is on disk, and that no interruption of a change loses a chunk.
//!
//! A change is a row of steps, and may stop behind any of them. What has been done by then is seen
//! by whoever looks next, but a crash of the machine may undo what has not been made durable. So a
//! disk is two worlds: the one that is seen, and what is sure of it. The laws here speak of every
//! prefix of such a row, and of every world that may be found after it: with or without the moves
//! that are not durable yet, and with any of the deletions done or undone. Moving a file is taken
//! to be one change: it is found in its old place or in its new one. Saving the index is durable
//! by itself.
use crate::chunks::counting;
use crate::chunks::hash::ChunkHash;
use crate::chunks::index;
use crate::chunks::settling;
use crate::repository::markers;
use crate::repository::plan;
use crate::repository::plan::StepModel;
use vstd::prelude::*;

verus! {

/// An archive or a marker: its name and the chunks that it is made of.
pub type Holding = (Seq<char>, Seq<ChunkHash>);

/// A repository on disk.
#[verifier::ext_equal]
pub struct World {
    /// The live archives.
    pub archives: Seq<Holding>,
    /// The archives whose deletion has begun.
    pub deleting: Seq<Holding>,
    /// The chunks in storage.
    pub stored: Set<ChunkHash>,
    /// The counts of the saved index.
    pub counts: Map<ChunkHash, u64>,
}

/// What the steps of a change refer to.
pub struct Change {
    /// The archive that is deleted or dropped, by its place.
    pub target: int,
    /// The archive that is published.
    pub new: Holding,
    /// The counts that are saved.
    pub saved: Map<ChunkHash, u64>,
}

/// All chunks of archives, with repetitions.
pub open spec fn chunks_of(holdings: Seq<Holding>) -> Seq<ChunkHash>
    decreases holdings.len(),
{
    if holdings.len() == 0 {
        Seq::empty()
    } else {
        chunks_of(holdings.drop_last()) + holdings.last().1
    }
}

/// Whether a marker has another name.
pub open spec fn other_than(marker: Seq<char>) -> spec_fn(Holding) -> bool {
    |holding: Holding| holding.0 != marker
}

/// The world after a step.
pub open spec fn after(step: StepModel, world: World, change: Change) -> World {
    match step {
        StepModel::MoveToDeleting(marker) => World {
            archives: world.archives.remove(change.target),
            deleting: world.deleting.push((marker, world.archives[change.target].1)),
            ..world
        },
        StepModel::DeleteChunk(hash) => World { stored: world.stored.remove(hash), ..world },
        StepModel::SweepChunk(hash) => World { stored: world.stored.remove(hash), ..world },
        StepModel::ReleaseChunk(hash, deleted) => if deleted {
            World { stored: world.stored.remove(hash), ..world }
        } else {
            world
        },
        StepModel::SaveIndex => World { counts: change.saved, ..world },
        StepModel::PublishArchive => World { archives: world.archives.push(change.new), ..world },
        StepModel::RemoveArchive => World {
            archives: world.archives.remove(change.target),
            ..world
        },
        StepModel::RemoveMarker(marker) => World {
            deleting: world.deleting.filter(other_than(marker)),
            ..world
        },
        _ => world,
    }
}

/// The world after steps.
pub open spec fn run(steps: Seq<StepModel>, world: World, change: Change) -> World
    decreases steps.len(),
{
    if steps.len() == 0 {
        world
    } else {
        after(steps.last(), run(steps.drop_last(), world, change), change)
    }
}

/// Whether the saved index counts no chunk less often than the live archives use it, as far as
/// markers do not tell that it has to be counted again. Deleting by such counts deletes nothing
/// that is used.
pub open spec fn covers(world: World) -> bool {
    forall|hash: ChunkHash|
        !chunks_of(world.deleting).contains(hash) ==> #[trigger] index::references_of(
            world.counts,
            hash,
        ) >= counting::capped(counting::occurrences(chunks_of(world.archives), hash))
}

/// Whether counts say of no chunk less than how often a list holds it.
pub open spec fn covering(counts: Map<ChunkHash, u64>, hashes: Seq<ChunkHash>) -> bool {
    forall|hash: ChunkHash| #[trigger]
        index::references_of(counts, hash) >= counting::capped(counting::occurrences(hashes, hash))
}

/// A repository on disk: as it is seen, and what is sure of it if the machine crashes.
#[verifier::ext_equal]
pub struct Disk {
    pub seen: World,
    /// The archives and markers as they were last made durable, and the chunks that are there
    /// whatever happens.
    pub sure: World,
}

/// What is sure after a step. A chunk is not sure to be there any more once its deletion has begun,
/// and not before it was made durable.
pub open spec fn sure_after(step: StepModel, disk: Disk, change: Change) -> World {
    let sure = disk.sure;
    match step {
        StepModel::DeleteChunk(hash) => World { stored: sure.stored.remove(hash), ..sure },
        StepModel::SweepChunk(hash) => World { stored: sure.stored.remove(hash), ..sure },
        StepModel::ReleaseChunk(hash, deleted) => if deleted {
            World { stored: sure.stored.remove(hash), ..sure }
        } else {
            sure
        },
        StepModel::SaveIndex => World { counts: change.saved, ..sure },
        StepModel::SyncStorage => World { stored: disk.seen.stored, ..sure },
        StepModel::SyncArchiveDirs => World {
            archives: disk.seen.archives,
            deleting: disk.seen.deleting,
            ..sure
        },
        // What left the archives has arrived among the markers; markers that were removed may
        // come back.
        StepModel::SyncArchivesDir => World {
            archives: disk.seen.archives,
            deleting: sure.deleting + disk.seen.deleting,
            ..sure
        },
        _ => sure,
    }
}

/// The disk after steps.
pub open spec fn run_disk(steps: Seq<StepModel>, disk: Disk, change: Change) -> Disk
    decreases steps.len(),
{
    if steps.len() == 0 {
        disk
    } else {
        let before = run_disk(steps.drop_last(), disk, change);
        Disk {
            seen: after(steps.last(), before.seen, change),
            sure: sure_after(steps.last(), before, change),
        }
    }
}

/// Whether all of some markers are among others.
pub open spec fn among(some: Seq<Holding>, others: Seq<Holding>) -> bool {
    forall|holding: Holding| #[trigger] some.contains(holding) ==> others.contains(holding)
}

/// Whether a world may be found, now or after a crash. The moves that are not durable have
/// happened or not; where an archive has left, its marker has come. A marker that is durable and
/// has not been removed is there. Other markers may be there too.
pub open spec fn may_find(disk: Disk, world: World) -> bool {
    &&& world.counts == disk.sure.counts
    &&& forall|hash: ChunkHash| #[trigger]
        disk.sure.stored.contains(hash) ==> world.stored.contains(hash)
    &&& world.archives == disk.sure.archives || world.archives == disk.seen.archives
    &&& forall|holding: Holding| #[trigger]
        disk.seen.deleting.contains(holding) && (disk.sure.deleting.contains(holding)
            || world.archives != disk.sure.archives) ==> world.deleting.contains(holding)
}

/// Whether deleting by the saved index deletes nothing that is used, and every chunk of `base`
/// that a live archive uses is in storage.
pub open spec fn sound(world: World, base: Set<ChunkHash>) -> bool {
    &&& covers(world)
    &&& forall|hash: ChunkHash|
        chunks_of(world.archives).contains(hash) && base.contains(hash)
            ==> #[trigger] world.stored.contains(hash)
}

/// Whether what is sure is there to be seen: chunks, and the index that was saved.
pub open spec fn consistent(disk: Disk) -> bool {
    &&& disk.sure.counts == disk.seen.counts
    &&& forall|hash: ChunkHash| #[trigger]
        disk.sure.stored.contains(hash) ==> disk.seen.stored.contains(hash)
}

/// Whether every world that may be found is sound. `base` are the chunks that have not been lost
/// otherwise; with all chunks for it, a safe disk has every chunk that a live archive uses.
pub open spec fn safe(disk: Disk, base: Set<ChunkHash>) -> bool {
    &&& consistent(disk)
    &&& forall|world: World| #[trigger] may_find(disk, world) ==> sound(world, base)
}

/// What is seen may be found, so it is sound.
pub proof fn seen_is_sound(disk: Disk, base: Set<ChunkHash>)
    requires
        safe(disk, base),
    ensures
        sound(disk.seen, base),
{
    assert(may_find(disk, disk.seen));
}

proof fn run_disk_seen(steps: Seq<StepModel>, disk: Disk, change: Change)
    ensures
        run_disk(steps, disk, change).seen == run(steps, disk.seen, change),
        consistent(disk) ==> consistent(run_disk(steps, disk, change)),
    decreases steps.len(),
{
    if steps.len() > 0 {
        run_disk_seen(steps.drop_last(), disk, change);
    }
}

proof fn chunks_of_contains(holdings: Seq<Holding>, hash: ChunkHash)
    ensures
        chunks_of(holdings).contains(hash) <==> exists|holding: Holding| #[trigger]
            holdings.contains(holding) && holding.1.contains(hash),
    decreases holdings.len(),
{
    if holdings.len() > 0 {
        let front = holdings.drop_last();
        let last = holdings.last();
        chunks_of_contains(front, hash);
        counting::occurrences_concat(chunks_of(front), last.1, hash);
        counting::occurrences_positive(chunks_of(front), hash);
        counting::occurrences_positive(last.1, hash);
        counting::occurrences_positive(chunks_of(holdings), hash);
        if chunks_of(front).contains(hash) {
            let holding = choose|holding: Holding| #[trigger]
                front.contains(holding) && holding.1.contains(hash);
            let i = choose|i: int| 0 <= i < front.len() && front[i] == holding;
            assert(holdings[i] == holding);
            assert(holdings.contains(holding));
        }
        if last.1.contains(hash) {
            assert(holdings[holdings.len() - 1] == last);
            assert(holdings.contains(last));
        }
        if exists|holding: Holding| #[trigger]
            holdings.contains(holding) && holding.1.contains(hash) {
            let holding = choose|holding: Holding| #[trigger]
                holdings.contains(holding) && holding.1.contains(hash);
            let i = choose|i: int| 0 <= i < holdings.len() && holdings[i] == holding;
            if i < front.len() {
                assert(front[i] == holding);
                assert(front.contains(holding));
            }
        }
    }
}

proof fn more_markers(some: Seq<Holding>, others: Seq<Holding>, hash: ChunkHash)
    requires
        among(some, others),
    ensures
        chunks_of(some).contains(hash) ==> chunks_of(others).contains(hash),
{
    chunks_of_contains(some, hash);
    chunks_of_contains(others, hash);
    if chunks_of(some).contains(hash) {
        let holding = choose|holding: Holding| #[trigger]
            some.contains(holding) && holding.1.contains(hash);
        assert(others.contains(holding));
    }
}

/// While the index is as it was, and the archives and markers are among those that could be found
/// at the start, the counts cover the archives, and their chunks were sure at the start.
proof fn as_at_the_start(start: Disk, base: Set<ChunkHash>, world: World)
    requires
        safe(start, base),
        world.counts == start.sure.counts,
        world.archives == start.sure.archives || world.archives == start.seen.archives,
        forall|holding: Holding| #[trigger]
            start.seen.deleting.contains(holding) && (start.sure.deleting.contains(holding)
                || world.archives != start.sure.archives) ==> world.deleting.contains(holding),
    ensures
        covers(world),
        forall|hash: ChunkHash|
            chunks_of(world.archives).contains(hash) && base.contains(hash)
                ==> #[trigger] start.sure.stored.contains(hash),
{
    let there = World { stored: start.sure.stored, ..world };
    assert(may_find(start, there));
    assert(sound(there, base));
    assert forall|hash: ChunkHash|
        !chunks_of(world.deleting).contains(hash) implies #[trigger] index::references_of(
        world.counts,
        hash,
    ) >= counting::capped(counting::occurrences(chunks_of(world.archives), hash)) by {
        assert(index::references_of(there.counts, hash) >= counting::capped(
            counting::occurrences(chunks_of(there.archives), hash),
        ));
    }
    assert forall|hash: ChunkHash|
        chunks_of(world.archives).contains(hash) && base.contains(hash)
            implies #[trigger] start.sure.stored.contains(hash) by {
        assert(there.stored.contains(hash));
    }
}

proof fn chunks_without(holdings: Seq<Holding>, t: int, hash: ChunkHash)
    requires
        0 <= t < holdings.len(),
    ensures
        counting::occurrences(chunks_of(holdings), hash) == counting::occurrences(
            holdings[t].1,
            hash,
        ) + counting::occurrences(chunks_of(holdings.remove(t)), hash),
    decreases holdings.len(),
{
    let last = holdings.len() - 1;
    counting::occurrences_concat(chunks_of(holdings.drop_last()), holdings.last().1, hash);
    if t == last {
        assert(holdings.remove(t) =~= holdings.drop_last());
    } else {
        chunks_without(holdings.drop_last(), t, hash);
        let rest = holdings.remove(t);
        assert(rest.drop_last() =~= holdings.drop_last().remove(t));
        assert(rest.last() == holdings.last());
        counting::occurrences_concat(chunks_of(rest.drop_last()), rest.last().1, hash);
    }
}

/// Counts that cover all uses, lowered by an archive's chunks, cover the uses by the others. What
/// they drop on the way, no other archive uses.
proof fn releasing_covers(
    counts: Map<ChunkHash, u64>,
    all: Seq<ChunkHash>,
    gone: Seq<ChunkHash>,
    rest: Seq<ChunkHash>,
    hash: ChunkHash,
)
    requires
        index::references_of(counts, hash) >= counting::capped(counting::occurrences(all, hash)),
        counting::occurrences(all, hash) < index::MAX_REFERENCES,
        counting::occurrences(all, hash) == counting::occurrences(gone, hash)
            + counting::occurrences(rest, hash),
    ensures
        index::references_of(counting::released(counts, gone), hash) >= counting::capped(
            counting::occurrences(rest, hash),
        ),
        forall|i: int|
            0 <= i < gone.len() && gone[i] == hash && #[trigger] counting::drops(counts, gone, i)
                ==> !rest.contains(hash),
{
    counting::released_references(counts, gone, hash);
    assert forall|i: int|
        0 <= i < gone.len() && gone[i] == hash && #[trigger] counting::drops(
            counts,
            gone,
            i,
        ) implies !rest.contains(hash) by {
        let front = gone.take(i);
        let back = gone.skip(i + 1);
        counting::released_references(counts, front, hash);
        assert(gone =~= front.push(hash) + back);
        counting::occurrences_concat(front.push(hash), back, hash);
        assert(front.push(hash).drop_last() =~= front);
        counting::occurrences_positive(rest, hash);
    }
}

/// Counts that were settled cover all uses, whatever the markers hold.
pub proof fn settling_covers(world: World)
    requires
        covers(world),
        counting::below_cap(chunks_of(world.archives)),
    ensures
        covering(
            settling::settled(
                world.counts,
                chunks_of(world.deleting),
                chunks_of(world.archives),
            ),
            chunks_of(world.archives),
        ),
{
    let live = chunks_of(world.archives);
    let pending = chunks_of(world.deleting);
    let counts = settling::settled(world.counts, pending, live);
    assert forall|hash: ChunkHash| #[trigger]
        index::references_of(counts, hash) >= counting::capped(
            counting::occurrences(live, hash),
        ) by {
        counting::occurrences_positive(live, hash);
        assert(counting::occurrences(live, hash) < index::MAX_REFERENCES);
        if !pending.contains(hash) {
            assert(index::references_of(world.counts, hash) >= counting::capped(
                counting::occurrences(live, hash),
            ));
        }
    }
}

/// The steps of a deletion: settling what is pending, if anything is, then the archive, then the
/// index and the markers.
pub open spec fn deletion(
    settle: bool,
    unused: Seq<ChunkHash>,
    marker: Seq<char>,
    deletions: Seq<(ChunkHash, bool)>,
    marker_files: Seq<Seq<char>>,
) -> Seq<StepModel> {
    (if settle {
        plan::settle_plan(unused)
    } else {
        Seq::empty()
    }) + plan::delete_plan(marker, deletions) + plan::closing_plan(marker_files)
}

/// Where a deletion stands between its steps.
spec fn deletion_state(
    start: World,
    world: World,
    t: int,
    unused: Seq<ChunkHash>,
    settled: Map<ChunkHash, u64>,
    saved: Map<ChunkHash, u64>,
    marker: Seq<char>,
    k: int,
    moved: int,
    closed: int,
) -> bool {
    let gone = start.archives[t].1;
    &&& k <= moved ==> {
        &&& world.archives == start.archives
        &&& world.deleting == start.deleting
        &&& world.counts == start.counts
    }
    &&& moved < k ==> world.archives == start.archives.remove(t)
    &&& moved < k <= closed ==> {
        &&& world.deleting == start.deleting.push((marker, gone))
        &&& world.counts == start.counts
    }
    &&& closed < k ==> world.counts == saved
    &&& forall|hash: ChunkHash|
        start.stored.contains(hash) && !unused.contains(hash) && (k <= moved || !dropped(
            settled,
            gone,
            hash,
        )) ==> #[trigger] world.stored.contains(hash)
}

/// Whether giving up a list drops a chunk.
pub open spec fn dropped(
    counts: Map<ChunkHash, u64>,
    gone: Seq<ChunkHash>,
    hash: ChunkHash,
) -> bool {
    exists|i: int|
        0 <= i < gone.len() && gone[i] == hash && #[trigger] counting::drops(counts, gone, i)
}

proof fn deletion_states(
    start: World,
    change: Change,
    settle: bool,
    unused: Seq<ChunkHash>,
    settled: Map<ChunkHash, u64>,
    marker: Seq<char>,
    deletions: Seq<(ChunkHash, bool)>,
    marker_files: Seq<Seq<char>>,
    k: int,
)
    requires
        0 <= change.target < start.archives.len(),
        deletions.len() == start.archives[change.target].1.len(),
        forall|i: int|
            0 <= i < deletions.len() ==> #[trigger] deletions[i] == (
                start.archives[change.target].1[i],
                counting::drops(settled, start.archives[change.target].1, i),
            ),
        0 <= k <= deletion(settle, unused, marker, deletions, marker_files).len(),
    ensures
        ({
            let steps = deletion(settle, unused, marker, deletions, marker_files);
            let head: int = if settle {
                1 + unused.len() as int
            } else {
                0
            };
            deletion_state(
                start,
                run(steps.take(k), start, change),
                change.target,
                unused,
                settled,
                change.saved,
                marker,
                k,
                head + 1,
                head + 3 + deletions.len(),
            )
        }),
    decreases k,
{
    let steps = deletion(settle, unused, marker, deletions, marker_files);
    let head: int = if settle {
        1 + unused.len() as int
    } else {
        0
    };
    let moved = head + 1;
    let closed = head + 3 + deletions.len();
    let gone = start.archives[change.target].1;
    if k == 0 {
        assert(steps.take(0) =~= Seq::empty());
    } else {
        deletion_states(
            start,
            change,
            settle,
            unused,
            settled,
            marker,
            deletions,
            marker_files,
            k - 1,
        );
        assert(steps.take(k).drop_last() =~= steps.take(k - 1));
        let before = run(steps.take(k - 1), start, change);
        let step = steps[k - 1];
        assert(steps.take(k).last() == step);
        let world = after(step, before, change);
        let i = k - 1;
        if i < head {
            assert(step == plan::settle_plan(unused)[i]);
            if i > 0 {
                assert(step == StepModel::DeleteChunk(unused[i - 1]));
                assert(unused.contains(unused[i - 1]));
            }
        } else if i < closed {
            assert(step == plan::delete_plan(marker, deletions)[i - head]);
            if i >= head + 3 {
                let j = i - head - 3;
                assert(step == StepModel::ReleaseChunk(deletions[j].0, deletions[j].1));
                assert(deletions[j] == (gone[j], counting::drops(settled, gone, j)));
                if deletions[j].1 {
                    assert(dropped(settled, gone, gone[j]));
                }
            } else if i == head {
                assert(step == StepModel::MakeDeletingDir);
            } else if i == head + 1 {
                assert(step == StepModel::MoveToDeleting(marker));
            } else {
                assert(step == StepModel::SyncArchiveDirs);
            }
        } else {
            assert(step == plan::closing_plan(marker_files)[i - closed]);
            if i == closed {
                assert(step == StepModel::SaveIndex);
            } else {
                assert(step is RemoveMarker);
            }
        }
    }
}

/// What is sure of the disk between the steps of a deletion.
spec fn deletion_sure(
    start: Disk,
    sure: World,
    t: int,
    settle: bool,
    unused: Seq<ChunkHash>,
    settled: Map<ChunkHash, u64>,
    saved: Map<ChunkHash, u64>,
    marker: Seq<char>,
    k: int,
    moved: int,
    closed: int,
) -> bool {
    let gone = start.seen.archives[t].1;
    &&& k <= closed ==> sure.counts == start.sure.counts
    &&& closed < k ==> sure.counts == saved
    &&& k <= moved + 1 ==> {
        if settle && k >= 1 {
            sure.archives == start.seen.archives && sure.deleting == start.seen.deleting
        } else {
            sure.archives == start.sure.archives && sure.deleting == start.sure.deleting
                && sure.stored == start.sure.stored
        }
    }
    &&& moved + 1 < k ==> {
        &&& sure.archives == start.seen.archives.remove(t)
        &&& sure.deleting == start.seen.deleting.push((marker, gone))
    }
    &&& forall|hash: ChunkHash|
        start.sure.stored.contains(hash) && !unused.contains(hash) && (k <= moved + 1 || !dropped(
            settled,
            gone,
            hash,
        )) ==> #[trigger] sure.stored.contains(hash)
}

proof fn deletion_sures(
    start: Disk,
    change: Change,
    settle: bool,
    unused: Seq<ChunkHash>,
    settled: Map<ChunkHash, u64>,
    marker: Seq<char>,
    deletions: Seq<(ChunkHash, bool)>,
    marker_files: Seq<Seq<char>>,
    k: int,
)
    requires
        0 <= change.target < start.seen.archives.len(),
        deletions.len() == start.seen.archives[change.target].1.len(),
        forall|i: int|
            0 <= i < deletions.len() ==> #[trigger] deletions[i] == (
                start.seen.archives[change.target].1[i],
                counting::drops(settled, start.seen.archives[change.target].1, i),
            ),
        0 <= k <= deletion(settle, unused, marker, deletions, marker_files).len(),
    ensures
        ({
            let steps = deletion(settle, unused, marker, deletions, marker_files);
            let head: int = if settle {
                1 + unused.len() as int
            } else {
                0
            };
            deletion_sure(
                start,
                run_disk(steps.take(k), start, change).sure,
                change.target,
                settle,
                unused,
                settled,
                change.saved,
                marker,
                k,
                head + 1,
                head + 3 + deletions.len(),
            )
        }),
    decreases k,
{
    let steps = deletion(settle, unused, marker, deletions, marker_files);
    let head: int = if settle {
        1 + unused.len() as int
    } else {
        0
    };
    let closed = head + 3 + deletions.len();
    let gone = start.seen.archives[change.target].1;
    if k == 0 {
        assert(steps.take(0) =~= Seq::empty());
    } else {
        deletion_sures(
            start,
            change,
            settle,
            unused,
            settled,
            marker,
            deletions,
            marker_files,
            k - 1,
        );
        deletion_states(
            start.seen,
            change,
            settle,
            unused,
            settled,
            marker,
            deletions,
            marker_files,
            k - 1,
        );
        run_disk_seen(steps.take(k - 1), start, change);
        assert(steps.take(k).drop_last() =~= steps.take(k - 1));
        let step = steps[k - 1];
        assert(steps.take(k).last() == step);
        let i = k - 1;
        if i < head {
            assert(step == plan::settle_plan(unused)[i]);
            if i > 0 {
                assert(step == StepModel::DeleteChunk(unused[i - 1]));
                assert(unused.contains(unused[i - 1]));
            }
        } else if i < closed {
            assert(step == plan::delete_plan(marker, deletions)[i - head]);
            if i >= head + 3 {
                let j = i - head - 3;
                assert(step == StepModel::ReleaseChunk(deletions[j].0, deletions[j].1));
                assert(deletions[j] == (gone[j], counting::drops(settled, gone, j)));
                if deletions[j].1 {
                    assert(dropped(settled, gone, gone[j]));
                }
            } else if i == head {
                assert(step == StepModel::MakeDeletingDir);
            } else if i == head + 1 {
                assert(step == StepModel::MoveToDeleting(marker));
            } else {
                assert(step == StepModel::SyncArchiveDirs);
            }
        } else {
            assert(step == plan::closing_plan(marker_files)[i - closed]);
            if i == closed {
                assert(step == StepModel::SaveIndex);
            } else {
                assert(step is RemoveMarker);
            }
        }
    }
}

/// Wherever a deletion is interrupted, and whatever a crash then leaves of it, no chunk that a
/// live archive uses has been deleted, and the index that is on disk, with the markers, is one
/// that deletions can go by.
pub proof fn deletion_is_safe(
    start: Disk,
    base: Set<ChunkHash>,
    change: Change,
    settle: bool,
    unused: Seq<ChunkHash>,
    settled: Map<ChunkHash, u64>,
    marker: Seq<char>,
    deletions: Seq<(ChunkHash, bool)>,
    marker_files: Seq<Seq<char>>,
    k: int,
)
    requires
        safe(start, base),
        counting::below_cap(chunks_of(start.seen.archives)),
        0 <= change.target < start.seen.archives.len(),
        covering(settled, chunks_of(start.seen.archives)),
        forall|hash: ChunkHash| #[trigger]
            unused.contains(hash) ==> !chunks_of(start.seen.archives).contains(hash),
        deletions.len() == start.seen.archives[change.target].1.len(),
        forall|i: int|
            0 <= i < deletions.len() ==> #[trigger] deletions[i] == (
                start.seen.archives[change.target].1[i],
                counting::drops(settled, start.seen.archives[change.target].1, i),
            ),
        change.saved == counting::released(settled, start.seen.archives[change.target].1),
        0 <= k <= deletion(settle, unused, marker, deletions, marker_files).len(),
    ensures
        ({
            let steps = deletion(settle, unused, marker, deletions, marker_files);
            safe(run_disk(steps.take(k), start, change), base)
        }),
{
    let steps = deletion(settle, unused, marker, deletions, marker_files);
    let disk = run_disk(steps.take(k), start, change);
    run_disk_seen(steps.take(k), start, change);
    deletion_states(
        start.seen,
        change,
        settle,
        unused,
        settled,
        marker,
        deletions,
        marker_files,
        k,
    );
    deletion_sures(start, change, settle, unused, settled, marker, deletions, marker_files, k);
    seen_is_sound(start, base);
    assert forall|world: World| #[trigger] may_find(disk, world) implies sound(world, base) by {
        deletion_is_sound(
            start,
            base,
            change,
            settle,
            unused,
            settled,
            marker,
            deletions,
            k,
            disk,
            world,
        );
    }
}

proof fn deletion_is_sound(
    start: Disk,
    base: Set<ChunkHash>,
    change: Change,
    settle: bool,
    unused: Seq<ChunkHash>,
    settled: Map<ChunkHash, u64>,
    marker: Seq<char>,
    deletions: Seq<(ChunkHash, bool)>,
    k: int,
    disk: Disk,
    world: World,
)
    requires
        safe(start, base),
        sound(start.seen, base),
        counting::below_cap(chunks_of(start.seen.archives)),
        0 <= change.target < start.seen.archives.len(),
        covering(settled, chunks_of(start.seen.archives)),
        forall|hash: ChunkHash| #[trigger]
            unused.contains(hash) ==> !chunks_of(start.seen.archives).contains(hash),
        change.saved == counting::released(settled, start.seen.archives[change.target].1),
        may_find(disk, world),
        ({
            let head: int = if settle {
                1 + unused.len() as int
            } else {
                0
            };
            &&& deletion_state(
                start.seen,
                disk.seen,
                change.target,
                unused,
                settled,
                change.saved,
                marker,
                k,
                head + 1,
                head + 3 + deletions.len(),
            )
            &&& deletion_sure(
                start,
                disk.sure,
                change.target,
                settle,
                unused,
                settled,
                change.saved,
                marker,
                k,
                head + 1,
                head + 3 + deletions.len(),
            )
        }),
    ensures
        sound(world, base),
{
    let head: int = if settle {
        1 + unused.len() as int
    } else {
        0
    };
    let moved = head + 1;
    let closed = head + 3 + deletions.len();
    let all = chunks_of(start.seen.archives);
    let gone = start.seen.archives[change.target].1;
    let rest_archives = start.seen.archives.remove(change.target);
    let rest = chunks_of(rest_archives);
    let more = start.seen.deleting.push((marker, gone));
    // The chunks of what was seen live were sure at the start.
    as_at_the_start(start, base, World { stored: Set::empty(), ..start.seen });
    assert forall|holding: Holding| #[trigger]
        start.seen.deleting.contains(holding) implies more.contains(holding) by {
        let i = choose|i: int|
            0 <= i < start.seen.deleting.len() && start.seen.deleting[i] == holding;
        assert(more[i] == holding);
    }
    if k <= moved + 1 && world.archives == disk.sure.archives || k <= moved {
        if k <= moved + 1 && world.archives == disk.sure.archives && k > moved {
            assert forall|holding: Holding| #[trigger]
                start.seen.deleting.contains(holding) && (start.sure.deleting.contains(holding)
                    || world.archives != start.sure.archives) implies world.deleting.contains(
                holding,
            ) by {
                assert(disk.seen.deleting.contains(holding));
            }
        }
        as_at_the_start(start, base, world);
        assert forall|hash: ChunkHash|
            chunks_of(world.archives).contains(hash) && base.contains(hash)
                implies #[trigger] world.stored.contains(hash) by {
            assert(start.sure.stored.contains(hash));
            if settle && k >= 1 {
                assert(unused.contains(hash) ==> !all.contains(hash));
            }
            assert(disk.sure.stored.contains(hash));
        }
    } else {
        assert(world.archives == rest_archives);
        assert forall|hash: ChunkHash|
            !chunks_of(world.deleting).contains(hash) implies #[trigger] index::references_of(
            world.counts,
            hash,
        ) >= counting::capped(counting::occurrences(chunks_of(world.archives), hash)) by {
            chunks_without(start.seen.archives, change.target, hash);
            assert(counting::occurrences(all, hash) < index::MAX_REFERENCES);
            assert(index::references_of(settled, hash) >= counting::capped(
                counting::occurrences(all, hash),
            ));
            releasing_covers(settled, all, gone, rest, hash);
            if k <= closed {
                assert(among(start.seen.deleting, world.deleting)) by {
                    assert forall|holding: Holding| #[trigger]
                        start.seen.deleting.contains(holding) implies world.deleting.contains(
                        holding,
                    ) by {
                        assert(disk.seen.deleting.contains(holding));
                    }
                }
                more_markers(start.seen.deleting, world.deleting, hash);
                assert(index::references_of(start.seen.counts, hash) >= counting::capped(
                    counting::occurrences(all, hash),
                ));
            }
        }
        assert forall|hash: ChunkHash|
            chunks_of(world.archives).contains(hash) && base.contains(hash)
                implies #[trigger] world.stored.contains(hash) by {
            chunks_without(start.seen.archives, change.target, hash);
            counting::occurrences_positive(all, hash);
            counting::occurrences_positive(rest, hash);
            assert(counting::occurrences(all, hash) < index::MAX_REFERENCES);
            assert(index::references_of(settled, hash) >= counting::capped(
                counting::occurrences(all, hash),
            ));
            releasing_covers(settled, all, gone, rest, hash);
            assert(unused.contains(hash) ==> !all.contains(hash));
            assert(start.sure.stored.contains(hash));
            assert(disk.sure.stored.contains(hash));
        }
    }
}

proof fn run_concat(a: Seq<StepModel>, b: Seq<StepModel>, world: World, change: Change)
    ensures
        run(a + b, world, change) == run(b, run(a, world, change), change),
    decreases b.len(),
{
    if b.len() == 0 {
        assert(a + b =~= a);
    } else {
        assert((a + b).drop_last() =~= a + b.drop_last());
        run_concat(a, b.drop_last(), world, change);
    }
}

/// Removing markers leaves those of other names, and nothing else changes.
proof fn removing_markers(files: Seq<Seq<char>>, world: World, change: Change)
    ensures
        ({
            let steps = files.map_values(|file: Seq<char>| StepModel::RemoveMarker(file));
            let end = run(steps, world, change);
            &&& end.archives == world.archives
            &&& end.counts == world.counts
            &&& end.stored == world.stored
            &&& forall|holding: Holding| #[trigger]
                end.deleting.contains(holding) ==> world.deleting.contains(holding)
                    && !files.contains(holding.0)
        }),
    decreases files.len(),
{
    let steps = files.map_values(|file: Seq<char>| StepModel::RemoveMarker(file));
    if files.len() > 0 {
        let front = files.drop_last();
        removing_markers(front, world, change);
        assert(steps.drop_last() =~= front.map_values(
            |file: Seq<char>| StepModel::RemoveMarker(file),
        ));
        let before = run(steps.drop_last(), world, change);
        let end = run(steps, world, change);
        let keep = other_than(files.last());
        assert(steps.last() == StepModel::RemoveMarker(files.last()));
        assert(end.deleting == before.deleting.filter(keep));
        assert forall|holding: Holding| #[trigger]
            end.deleting.contains(holding) implies world.deleting.contains(holding)
            && !files.contains(holding.0) by {
            before.deleting.lemma_filter_contains_rev(keep, holding);
            let i = choose|i: int| 0 <= i < end.deleting.len() && end.deleting[i] == holding;
            assert(keep(end.deleting[i]));
            if files.contains(holding.0) {
                let j = choose|j: int| 0 <= j < files.len() && files[j] == holding.0;
                assert(front[j] == holding.0);
                assert(front.contains(holding.0));
            }
        }
    } else {
        assert(steps =~= Seq::empty());
    }
}

proof fn removal_order_contains(files: Seq<Seq<char>>, file: Seq<char>)
    requires
        files.contains(file),
    ensures
        markers::in_removal_order(files).contains(file),
{
    let without = |file: Seq<char>| !markers::is_named(file);
    let with = |file: Seq<char>| markers::is_named(file);
    let i = choose|i: int| 0 <= i < files.len() && files[i] == file;
    let a = files.filter(without);
    let b = files.filter(with);
    if with(file) {
        assert(b.contains(files[i]));
        let j = choose|j: int| 0 <= j < b.len() && b[j] == file;
        assert((a + b)[a.len() + j] == file);
    } else {
        assert(a.contains(files[i]));
        let j = choose|j: int| 0 <= j < a.len() && a[j] == file;
        assert((a + b)[j] == file);
    }
}

/// Closing saves the counts and removes the markers that are listed.
proof fn closing_closes(files: Seq<Seq<char>>, world: World, change: Change)
    requires
        forall|i: int|
            0 <= i < world.deleting.len() ==> files.contains((#[trigger] world.deleting[i]).0),
    ensures
        run(plan::closing_plan(files), world, change) == (World {
            counts: change.saved,
            deleting: Seq::empty(),
            ..world
        }),
{
    let ordered = markers::in_removal_order(files);
    let save = seq![StepModel::SaveIndex];
    let removals = ordered.map_values(|file: Seq<char>| StepModel::RemoveMarker(file));
    let saved = run(save, world, change);
    assert(save.drop_last() =~= Seq::empty());
    assert(run(save.drop_last(), world, change) == world);
    assert(saved == World { counts: change.saved, ..world });
    run_concat(save, removals, world, change);
    removing_markers(ordered, saved, change);
    let end = run(removals, saved, change);
    if end.deleting.len() > 0 {
        let holding = end.deleting[0];
        assert(end.deleting.contains(holding));
        let i = choose|i: int| 0 <= i < world.deleting.len() && world.deleting[i] == holding;
        assert(files.contains(world.deleting[i].0));
        removal_order_contains(files, holding.0);
    }
    assert(end.deleting =~= Seq::empty());
}

/// A deletion that runs to its end leaves the other archives, no markers, and counts without the
/// deleted archive. If the counts were accurate once settled, they are accurate.
pub proof fn deletion_completes(
    start: World,
    change: Change,
    settle: bool,
    unused: Seq<ChunkHash>,
    settled: Map<ChunkHash, u64>,
    marker: Seq<char>,
    deletions: Seq<(ChunkHash, bool)>,
    marker_files: Seq<Seq<char>>,
)
    requires
        counting::below_cap(chunks_of(start.archives)),
        0 <= change.target < start.archives.len(),
        counting::accurate(settled, chunks_of(start.archives)),
        deletions.len() == start.archives[change.target].1.len(),
        forall|i: int|
            0 <= i < deletions.len() ==> #[trigger] deletions[i] == (
                start.archives[change.target].1[i],
                counting::drops(settled, start.archives[change.target].1, i),
            ),
        change.saved == counting::released(settled, start.archives[change.target].1),
        marker_files.contains(marker),
        forall|i: int|
            0 <= i < start.deleting.len() ==> marker_files.contains(
                (#[trigger] start.deleting[i]).0,
            ),
    ensures
        ({
            let steps = deletion(settle, unused, marker, deletions, marker_files);
            let world = run(steps, start, change);
            &&& world.archives == start.archives.remove(change.target)
            &&& world.deleting == Seq::<Holding>::empty()
            &&& world.counts == change.saved
            &&& counting::accurate(world.counts, chunks_of(world.archives))
        }),
{
    let steps = deletion(settle, unused, marker, deletions, marker_files);
    let closing = plan::closing_plan(marker_files);
    let head: int = if settle {
        1 + unused.len() as int
    } else {
        0
    };
    let closed = head + 3 + deletions.len();
    let front = steps.take(closed);
    assert(steps =~= front + closing);
    deletion_states(
        start,
        change,
        settle,
        unused,
        settled,
        marker,
        deletions,
        marker_files,
        closed,
    );
    let middle = run(front, start, change);
    run_concat(front, closing, start, change);
    assert forall|i: int| 0 <= i < middle.deleting.len() implies marker_files.contains(
        (#[trigger] middle.deleting[i]).0,
    ) by {
        if i < start.deleting.len() {
            assert(middle.deleting[i] == start.deleting[i]);
        }
    }
    closing_closes(marker_files, middle, change);
    let all = chunks_of(start.archives);
    let gone = start.archives[change.target].1;
    let rest = chunks_of(start.archives.remove(change.target));
    assert forall|hash: ChunkHash| #[trigger]
        counting::occurrences(all, hash) == counting::occurrences(gone, hash)
            + counting::occurrences(rest, hash) by {
        chunks_without(start.archives, change.target, hash);
    }
    counting::deletion_keeps_accuracy(settled, all, gone, rest);
}

/// The steps of a cleaning.
pub open spec fn cleaning(
    settle: bool,
    unused: Seq<ChunkHash>,
    swept: Seq<ChunkHash>,
    marker_files: Seq<Seq<char>>,
) -> Seq<StepModel> {
    (if settle {
        plan::settle_plan(unused)
    } else {
        Seq::empty()
    }) + seq![StepModel::RemoveLeftovers, StepModel::RemovePartialArchives] + plan::sweep_plan(
        swept,
    ) + plan::closing_plan(marker_files)
}

/// The steps that finish interrupted deletions, and no more.
pub open spec fn finishing(
    settle: bool,
    unused: Seq<ChunkHash>,
    marker_files: Seq<Seq<char>>,
) -> Seq<StepModel> {
    (if settle {
        plan::settle_plan(unused)
    } else {
        Seq::empty()
    }) + plan::closing_plan(marker_files)
}

/// The steps of a cleaning, or only those that finish interrupted deletions.
spec fn sweeping(
    settle: bool,
    tidy: bool,
    unused: Seq<ChunkHash>,
    swept: Seq<ChunkHash>,
    marker_files: Seq<Seq<char>>,
) -> Seq<StepModel> {
    if tidy {
        cleaning(settle, unused, swept, marker_files)
    } else {
        finishing(settle, unused, marker_files)
    }
}

/// How many steps come before the index is saved.
spec fn swept_by(
    settle: bool,
    tidy: bool,
    unused: Seq<ChunkHash>,
    swept: Seq<ChunkHash>,
) -> int {
    (if settle {
        1 + unused.len() as int
    } else {
        0
    }) + if tidy {
        2 + swept.len() as int
    } else {
        0
    }
}

proof fn sweeping_states(
    start: Disk,
    change: Change,
    settle: bool,
    tidy: bool,
    unused: Seq<ChunkHash>,
    swept: Seq<ChunkHash>,
    marker_files: Seq<Seq<char>>,
    k: int,
)
    requires
        0 <= k <= sweeping(settle, tidy, unused, swept, marker_files).len(),
    ensures
        ({
            let steps = sweeping(settle, tidy, unused, swept, marker_files);
            let disk = run_disk(steps.take(k), start, change);
            let closed = swept_by(settle, tidy, unused, swept);
            &&& disk.seen.archives == start.seen.archives
            &&& k <= closed ==> disk.seen.deleting == start.seen.deleting && disk.sure.counts
                == start.sure.counts
            &&& closed < k ==> disk.sure.counts == change.saved
            &&& if settle && k >= 1 {
                disk.sure.archives == start.seen.archives && disk.sure.deleting
                    == start.seen.deleting
            } else {
                disk.sure.archives == start.sure.archives && disk.sure.deleting
                    == start.sure.deleting
            }
            &&& k == 0 ==> disk.sure.stored == start.sure.stored
            &&& forall|hash: ChunkHash|
                start.sure.stored.contains(hash) && !(settle && unused.contains(hash)) && !(tidy
                    && swept.contains(hash)) ==> #[trigger] disk.sure.stored.contains(hash)
        }),
    decreases k,
{
    let steps = sweeping(settle, tidy, unused, swept, marker_files);
    let closed = swept_by(settle, tidy, unused, swept);
    let head: int = if settle {
        1 + unused.len() as int
    } else {
        0
    };
    if k == 0 {
        assert(steps.take(0) =~= Seq::empty());
    } else {
        sweeping_states(start, change, settle, tidy, unused, swept, marker_files, k - 1);
        assert(steps.take(k).drop_last() =~= steps.take(k - 1));
        let step = steps[k - 1];
        assert(steps.take(k).last() == step);
        let i = k - 1;
        if i < head {
            assert(step == plan::settle_plan(unused)[i]);
            if i > 0 {
                assert(step == StepModel::DeleteChunk(unused[i - 1]));
                assert(unused.contains(unused[i - 1]));
            }
        } else if i < closed {
            if i < head + 2 {
                assert(step == StepModel::RemoveLeftovers || step
                    == StepModel::RemovePartialArchives);
            } else {
                let j = i - head - 2;
                assert(step == plan::sweep_plan(swept)[j]);
                assert(swept.contains(swept[j]));
            }
        } else {
            assert(step == plan::closing_plan(marker_files)[i - closed]);
            if i > closed {
                assert(step is RemoveMarker);
            }
        }
    }
}

proof fn sweeping_is_safe(
    start: Disk,
    base: Set<ChunkHash>,
    change: Change,
    settle: bool,
    tidy: bool,
    unused: Seq<ChunkHash>,
    settled: Map<ChunkHash, u64>,
    swept: Seq<ChunkHash>,
    marker_files: Seq<Seq<char>>,
    k: int,
)
    requires
        safe(start, base),
        settle || (start.seen.deleting.len() == 0 && settled == start.seen.counts),
        covering(settled, chunks_of(start.seen.archives)),
        forall|hash: ChunkHash| #[trigger]
            unused.contains(hash) ==> !chunks_of(start.seen.archives).contains(hash),
        forall|hash: ChunkHash| #[trigger]
            swept.contains(hash) ==> index::references_of(settled, hash) == 0,
        forall|hash: ChunkHash| #[trigger]
            index::references_of(change.saved, hash) == index::references_of(settled, hash),
        0 <= k <= sweeping(settle, tidy, unused, swept, marker_files).len(),
    ensures
        ({
            let steps = sweeping(settle, tidy, unused, swept, marker_files);
            safe(run_disk(steps.take(k), start, change), base)
        }),
{
    let steps = sweeping(settle, tidy, unused, swept, marker_files);
    let disk = run_disk(steps.take(k), start, change);
    let closed = swept_by(settle, tidy, unused, swept);
    let all = chunks_of(start.seen.archives);
    run_disk_seen(steps.take(k), start, change);
    sweeping_states(start, change, settle, tidy, unused, swept, marker_files, k);
    assert forall|world: World| #[trigger] may_find(disk, world) implies sound(world, base) by {
        let before = World {
            counts: start.sure.counts,
            deleting: if settle {
                start.seen.deleting
            } else {
                Seq::empty()
            },
            ..world
        };
        as_at_the_start(start, base, before);
        if k <= closed {
            as_at_the_start(start, base, world);
        }
        assert forall|hash: ChunkHash|
            !chunks_of(world.deleting).contains(hash) implies #[trigger] index::references_of(
            world.counts,
            hash,
        ) >= counting::capped(counting::occurrences(chunks_of(world.archives), hash)) by {
            if k > closed {
                assert(index::references_of(change.saved, hash) == index::references_of(
                    settled,
                    hash,
                ));
                if settle {
                    assert(index::references_of(settled, hash) >= counting::capped(
                        counting::occurrences(all, hash),
                    ));
                } else {
                    assert(index::references_of(before.counts, hash) >= counting::capped(
                        counting::occurrences(chunks_of(before.archives), hash),
                    ));
                }
            }
        }
        assert forall|hash: ChunkHash|
            chunks_of(world.archives).contains(hash) && base.contains(hash)
                implies #[trigger] world.stored.contains(hash) by {
            assert(start.sure.stored.contains(hash));
            counting::occurrences_positive(chunks_of(world.archives), hash);
            if k > 0 {
                if settle {
                    assert(unused.contains(hash) ==> !all.contains(hash));
                    assert(index::references_of(settled, hash) >= counting::capped(
                        counting::occurrences(all, hash),
                    ));
                } else {
                    assert(index::references_of(before.counts, hash) >= counting::capped(
                        counting::occurrences(chunks_of(before.archives), hash),
                    ));
                }
                assert(swept.contains(hash) ==> index::references_of(settled, hash) == 0);
            }
            assert(disk.sure.stored.contains(hash));
        }
    }
}

/// Wherever a cleaning is interrupted, and whatever a crash then leaves of it, no chunk that a live
/// archive uses has been deleted, and the index that is on disk, with the markers, is one that
/// deletions can go by. Where nothing is settled, nothing was pending.
pub proof fn cleaning_is_safe(
    start: Disk,
    base: Set<ChunkHash>,
    change: Change,
    settle: bool,
    unused: Seq<ChunkHash>,
    settled: Map<ChunkHash, u64>,
    swept: Seq<ChunkHash>,
    marker_files: Seq<Seq<char>>,
    k: int,
)
    requires
        safe(start, base),
        settle || (start.seen.deleting.len() == 0 && settled == start.seen.counts),
        covering(settled, chunks_of(start.seen.archives)),
        forall|hash: ChunkHash| #[trigger]
            unused.contains(hash) ==> !chunks_of(start.seen.archives).contains(hash),
        forall|hash: ChunkHash| #[trigger]
            swept.contains(hash) ==> index::references_of(settled, hash) == 0,
        forall|hash: ChunkHash| #[trigger]
            index::references_of(change.saved, hash) == index::references_of(settled, hash),
        0 <= k <= cleaning(settle, unused, swept, marker_files).len(),
    ensures
        safe(
            run_disk(cleaning(settle, unused, swept, marker_files).take(k), start, change),
            base,
        ),
{
    sweeping_is_safe(
        start,
        base,
        change,
        settle,
        true,
        unused,
        settled,
        swept,
        marker_files,
        k,
    );
}

/// Wherever the finishing of interrupted deletions is itself interrupted, and whatever a crash
/// then leaves of it, no chunk that a live archive uses has been deleted, and the index that is on
/// disk, with the markers, is one that deletions can go by.
pub proof fn finishing_is_safe(
    start: Disk,
    base: Set<ChunkHash>,
    change: Change,
    settle: bool,
    unused: Seq<ChunkHash>,
    marker_files: Seq<Seq<char>>,
    k: int,
)
    requires
        safe(start, base),
        settle || (start.seen.deleting.len() == 0 && change.saved == start.seen.counts),
        covering(change.saved, chunks_of(start.seen.archives)),
        forall|hash: ChunkHash| #[trigger]
            unused.contains(hash) ==> !chunks_of(start.seen.archives).contains(hash),
        0 <= k <= finishing(settle, unused, marker_files).len(),
    ensures
        safe(run_disk(finishing(settle, unused, marker_files).take(k), start, change), base),
{
    sweeping_is_safe(
        start,
        base,
        change,
        settle,
        false,
        unused,
        change.saved,
        Seq::empty(),
        marker_files,
        k,
    );
}

/// Wherever the end of a rebuild is interrupted, and whatever a crash then leaves of it, the index
/// that is on disk, with the markers, is one that deletions can go by. A rebuild deletes no chunk.
pub proof fn rebuild_is_safe(
    start: Disk,
    base: Set<ChunkHash>,
    change: Change,
    marker_files: Seq<Seq<char>>,
    k: int,
)
    requires
        safe(start, base),
        covering(change.saved, chunks_of(start.seen.archives)),
        0 <= k <= 2 + marker_files.len(),
    ensures
        ({
            let disk = run_disk(plan::rebuild_plan(marker_files).take(k), start, change);
            &&& safe(disk, base)
            &&& disk.seen.archives == start.seen.archives
            &&& disk.seen.stored == start.seen.stored
            &&& disk.sure.stored == start.sure.stored
        }),
{
    let steps = plan::rebuild_plan(marker_files);
    let disk = run_disk(steps.take(k), start, change);
    run_disk_seen(steps.take(k), start, change);
    rebuild_states(start, change, marker_files, k);
    assert forall|world: World| #[trigger] may_find(disk, world) implies sound(world, base) by {
        as_at_the_start(
            start,
            base,
            World { counts: start.sure.counts, deleting: start.seen.deleting, ..world },
        );
        if k < 2 {
            as_at_the_start(start, base, world);
        } else {
            assert forall|hash: ChunkHash|
                !chunks_of(world.deleting).contains(hash) implies #[trigger] index::references_of(
                world.counts,
                hash,
            ) >= counting::capped(
                counting::occurrences(chunks_of(world.archives), hash),
            ) by {
                assert(index::references_of(change.saved, hash) >= counting::capped(
                    counting::occurrences(chunks_of(start.seen.archives), hash),
                ));
            }
        }
        assert forall|hash: ChunkHash|
            chunks_of(world.archives).contains(hash) && base.contains(hash)
                implies #[trigger] world.stored.contains(hash) by {
            assert(start.sure.stored.contains(hash));
        }
    }
}

proof fn rebuild_states(start: Disk, change: Change, marker_files: Seq<Seq<char>>, k: int)
    requires
        0 <= k <= 2 + marker_files.len(),
    ensures
        ({
            let disk = run_disk(plan::rebuild_plan(marker_files).take(k), start, change);
            &&& disk.seen.archives == start.seen.archives
            &&& disk.seen.stored == start.seen.stored
            &&& disk.sure.stored == start.sure.stored
            &&& disk.sure.counts == if k < 2 {
                start.sure.counts
            } else {
                change.saved
            }
            &&& k <= 2 ==> disk.seen.deleting == start.seen.deleting
            &&& k == 0 ==> disk.sure.archives == start.sure.archives && disk.sure.deleting
                == start.sure.deleting
            &&& k >= 1 ==> disk.sure.archives == start.seen.archives && disk.sure.deleting
                == start.seen.deleting
        }),
    decreases k,
{
    let steps = plan::rebuild_plan(marker_files);
    if k == 0 {
        assert(steps.take(0) =~= Seq::empty());
    } else {
        rebuild_states(start, change, marker_files, k - 1);
        assert(steps.take(k).drop_last() =~= steps.take(k - 1));
        assert(steps.take(k).last() == steps[k - 1]);
        if k > 2 {
            assert(steps[k - 1] == StepModel::RemoveMarker(marker_files[k - 3]));
        }
    }
}

/// Wherever a recount is interrupted, and whatever a crash then leaves of it, the index that is on
/// disk, with the markers, is one that deletions can go by, if every live archive was counted. A
/// recount deletes no chunk.
pub proof fn recount_is_safe(
    start: Disk,
    base: Set<ChunkHash>,
    change: Change,
    marker_files: Seq<Seq<char>>,
    k: int,
)
    requires
        safe(start, base),
        covering(change.saved, chunks_of(start.seen.archives)),
        0 <= k <= plan::recount_plan(marker_files).len(),
    ensures
        ({
            let disk = run_disk(plan::recount_plan(marker_files).take(k), start, change);
            &&& safe(disk, base)
            &&& disk.seen.archives == start.seen.archives
            &&& disk.seen.stored == start.seen.stored
            &&& disk.sure.stored == start.sure.stored
        }),
{
    let ordered = markers::in_removal_order(marker_files);
    assert(plan::recount_plan(marker_files) =~= plan::rebuild_plan(ordered));
    rebuild_is_safe(start, base, change, ordered, k);
}

/// The steps that give up an archive that cannot be read: its file goes, and the others are
/// counted again.
pub open spec fn dropping(marker_files: Seq<Seq<char>>) -> Seq<StepModel> {
    plan::drop_plan() + plan::recount_plan(marker_files)
}

proof fn run_disk_concat(a: Seq<StepModel>, b: Seq<StepModel>, disk: Disk, change: Change)
    ensures
        run_disk(a + b, disk, change) == run_disk(b, run_disk(a, disk, change), change),
    decreases b.len(),
{
    if b.len() == 0 {
        assert(a + b =~= a);
    } else {
        assert((a + b).drop_last() =~= a + b.drop_last());
        run_disk_concat(a, b.drop_last(), disk, change);
    }
}

/// Wherever giving up an archive is interrupted, and whatever a crash then leaves of it, every
/// chunk that another archive uses is there, and the index that is on disk, with the markers, is
/// one that deletions can go by, if every other archive was counted.
pub proof fn dropping_is_safe(
    start: Disk,
    base: Set<ChunkHash>,
    change: Change,
    marker_files: Seq<Seq<char>>,
    k: int,
)
    requires
        safe(start, base),
        0 <= change.target < start.seen.archives.len(),
        covering(change.saved, chunks_of(start.seen.archives.remove(change.target))),
        0 <= k <= dropping(marker_files).len(),
    ensures
        ({
            let disk = run_disk(dropping(marker_files).take(k), start, change);
            &&& safe(disk, base)
            &&& k >= 1 ==> disk.seen.archives == start.seen.archives.remove(change.target)
            &&& disk.seen.stored == start.seen.stored
        }),
{
    let steps = dropping(marker_files);
    let front = plan::drop_plan();
    let rest_archives = start.seen.archives.remove(change.target);
    let nothing: Seq<StepModel> = Seq::empty();
    let one = seq![StepModel::RemoveArchive];
    let removed = run_disk(one, start, change);
    let gone = run_disk(front, start, change);
    assert(one.drop_last() =~= nothing);
    assert(run_disk(nothing, start, change) == start);
    assert(removed == Disk {
        seen: World { archives: rest_archives, ..start.seen },
        sure: start.sure,
    });
    assert(front.drop_last() =~= one);
    assert(front.last() == StepModel::SyncArchiveDirs);
    assert(gone == Disk {
        seen: removed.seen,
        sure: World { archives: rest_archives, deleting: start.seen.deleting, ..start.sure },
    });
    seen_is_sound(start, base);
    as_at_the_start(start, base, World { stored: Set::empty(), ..start.seen });
    assert forall|world: World|
        #![trigger may_find(removed, world)]
        #![trigger may_find(gone, world)]
        may_find(removed, world) || may_find(gone, world) implies sound(world, base) by {
        if world.archives == start.sure.archives && may_find(removed, world) {
            as_at_the_start(start, base, world);
            assert forall|hash: ChunkHash|
                chunks_of(world.archives).contains(hash) && base.contains(hash)
                    implies #[trigger] world.stored.contains(hash) by {
                assert(start.sure.stored.contains(hash));
                assert(removed.sure.stored.contains(hash));
            }
        } else {
            assert(among(start.seen.deleting, world.deleting)) by {
                assert forall|holding: Holding| #[trigger]
                    start.seen.deleting.contains(holding) implies world.deleting.contains(
                    holding,
                ) by {
                    assert(removed.seen.deleting.contains(holding));
                    assert(gone.seen.deleting.contains(holding));
                    assert(gone.sure.deleting.contains(holding));
                }
            }
            assert forall|hash: ChunkHash|
                !chunks_of(world.deleting).contains(hash) implies #[trigger] index::references_of(
                world.counts,
                hash,
            ) >= counting::capped(
                counting::occurrences(chunks_of(world.archives), hash),
            ) by {
                more_markers(start.seen.deleting, world.deleting, hash);
                chunks_without(start.seen.archives, change.target, hash);
                assert(index::references_of(start.seen.counts, hash) >= counting::capped(
                    counting::occurrences(chunks_of(start.seen.archives), hash),
                ));
            }
            assert forall|hash: ChunkHash|
                chunks_of(world.archives).contains(hash) && base.contains(hash)
                    implies #[trigger] world.stored.contains(hash) by {
                chunks_without(start.seen.archives, change.target, hash);
                counting::occurrences_positive(chunks_of(start.seen.archives), hash);
                counting::occurrences_positive(chunks_of(rest_archives), hash);
                assert(start.sure.stored.contains(hash));
                assert(removed.sure.stored.contains(hash));
                assert(gone.sure.stored.contains(hash));
            }
        }
    }
    assert(safe(removed, base));
    assert(safe(gone, base));
    if k == 0 {
        assert(steps.take(0) =~= nothing);
    } else if k == 1 {
        assert(steps.take(1) =~= one);
    } else {
        let back = plan::recount_plan(marker_files);
        assert(steps.take(k) =~= front + back.take(k - 2));
        run_disk_concat(front, back.take(k - 2), start, change);
        recount_is_safe(gone, base, change, marker_files, k - 2);
    }
}

/// Wherever the publication of a backup is interrupted, and whatever a crash then leaves of it,
/// no chunk that a live archive uses is lost, and the index that is on disk, with the markers, is
/// one that deletions can go by. Where the new archive is found, all its chunks are there: they
/// are in storage, if not durably, before the publication begins.
pub proof fn publication_is_safe(start: Disk, base: Set<ChunkHash>, change: Change, k: int)
    requires
        safe(start, base),
        forall|hash: ChunkHash| #[trigger]
            index::references_of(start.seen.counts, hash) <= index::MAX_REFERENCES,
        forall|hash: ChunkHash| #[trigger]
            change.new.1.contains(hash) ==> start.seen.stored.contains(hash),
        change.saved == counting::counted(start.seen.counts, change.new.1),
        0 <= k <= plan::publish_plan().len(),
    ensures
        ({
            let disk = run_disk(plan::publish_plan().take(k), start, change);
            &&& safe(disk, base)
            &&& disk.seen.archives == if k < 5 {
                start.seen.archives
            } else {
                start.seen.archives.push(change.new)
            }
            &&& k >= 5 ==> forall|hash: ChunkHash| #[trigger]
                change.new.1.contains(hash) ==> disk.sure.stored.contains(hash)
        }),
{
    let steps = plan::publish_plan();
    let disk = run_disk(steps.take(k), start, change);
    run_disk_seen(steps.take(k), start, change);
    publication_states(start, change, k);
    seen_is_sound(start, base);
    as_at_the_start(start, base, World { stored: Set::empty(), ..start.seen });
    let live = chunks_of(start.seen.archives);
    let new = change.new.1;
    let more = start.seen.archives.push(change.new);
    assert(more.drop_last() =~= start.seen.archives);
    assert forall|world: World| #[trigger] may_find(disk, world) implies sound(world, base) by {
        let old = k < 5 || (k < 6 && world.archives == disk.sure.archives);
        let before = World { counts: start.sure.counts, ..world };
        if old {
            assert forall|holding: Holding| #[trigger]
                start.seen.deleting.contains(holding) && (start.sure.deleting.contains(holding)
                    || before.archives != start.sure.archives) implies before.deleting.contains(
                holding,
            ) by {
                assert(disk.seen.deleting.contains(holding));
            }
            as_at_the_start(start, base, before);
        } else {
            assert(world.archives == more);
            assert(among(start.seen.deleting, world.deleting)) by {
                assert forall|holding: Holding| #[trigger]
                    start.seen.deleting.contains(holding) implies world.deleting.contains(
                    holding,
                ) by {
                    assert(disk.seen.deleting.contains(holding));
                    if k == 6 {
                        let i = choose|i: int|
                            0 <= i < start.seen.deleting.len() && start.seen.deleting[i]
                                == holding;
                        assert(disk.sure.deleting[start.sure.deleting.len() + i] == holding);
                        assert(disk.sure.deleting.contains(holding));
                    }
                }
            }
        }
        assert forall|hash: ChunkHash|
            !chunks_of(world.deleting).contains(hash) implies #[trigger] index::references_of(
            world.counts,
            hash,
        ) >= counting::capped(counting::occurrences(chunks_of(world.archives), hash)) by {
            assert(index::references_of(start.seen.counts, hash) <= index::MAX_REFERENCES);
            counting::counted_references(start.seen.counts, new, hash);
            if old {
                assert(index::references_of(before.counts, hash) >= counting::capped(
                    counting::occurrences(chunks_of(before.archives), hash),
                ));
            } else {
                more_markers(start.seen.deleting, world.deleting, hash);
                assert(index::references_of(start.seen.counts, hash) >= counting::capped(
                    counting::occurrences(live, hash),
                ));
                counting::occurrences_concat(live, new, hash);
            }
        }
        assert forall|hash: ChunkHash|
            chunks_of(world.archives).contains(hash) && base.contains(hash)
                implies #[trigger] world.stored.contains(hash) by {
            if !old {
                counting::occurrences_concat(live, new, hash);
                counting::occurrences_positive(live + new, hash);
                counting::occurrences_positive(live, hash);
                counting::occurrences_positive(new, hash);
                assert(new.contains(hash) ==> start.seen.stored.contains(hash));
            }
            if old || live.contains(hash) {
                assert(start.sure.stored.contains(hash));
                assert(start.seen.stored.contains(hash));
            }
            assert(disk.sure.stored.contains(hash));
        }
    }
}

proof fn publication_states(start: Disk, change: Change, k: int)
    requires
        0 <= k <= plan::publish_plan().len(),
    ensures
        ({
            let archives = if k < 5 {
                start.seen.archives
            } else {
                start.seen.archives.push(change.new)
            };
            let disk = run_disk(plan::publish_plan().take(k), start, change);
            &&& disk.seen == (World {
                archives,
                counts: if k < 2 {
                    start.seen.counts
                } else {
                    change.saved
                },
                ..start.seen
            })
            &&& disk.sure == (World {
                archives: if k < 6 {
                    start.sure.archives
                } else {
                    archives
                },
                deleting: if k < 6 {
                    start.sure.deleting
                } else {
                    start.sure.deleting + start.seen.deleting
                },
                counts: if k < 2 {
                    start.sure.counts
                } else {
                    change.saved
                },
                stored: if k < 1 {
                    start.sure.stored
                } else {
                    start.seen.stored
                },
            })
        }),
    decreases k,
{
    let steps = plan::publish_plan();
    if k == 0 {
        assert(steps.take(0) =~= Seq::empty());
    } else {
        publication_states(start, change, k - 1);
        assert(steps.take(k).drop_last() =~= steps.take(k - 1));
        assert(steps.take(k).last() == steps[k - 1]);
    }
}

/// The steps of the changes, part by part.
pub proof fn changes_part_by_part(
    unused: Seq<ChunkHash>,
    swept: Seq<ChunkHash>,
    marker: Seq<char>,
    deletions: Seq<(ChunkHash, bool)>,
    files: Seq<Seq<char>>,
)
    ensures
        deletion(true, unused, marker, deletions, files) == plan::settle_plan(unused)
            + plan::delete_plan(marker, deletions) + plan::closing_plan(files),
        deletion(false, unused, marker, deletions, files) == plan::delete_plan(marker, deletions)
            + plan::closing_plan(files),
        finishing(true, unused, files) == plan::settle_plan(unused) + plan::closing_plan(files),
        finishing(false, unused, files) == plan::closing_plan(files),
        cleaning(true, unused, swept, files) == plan::settle_plan(unused) + seq![
            StepModel::RemoveLeftovers,
            StepModel::RemovePartialArchives,
        ] + plan::sweep_plan(swept) + plan::closing_plan(files),
        cleaning(false, unused, swept, files) == seq![
            StepModel::RemoveLeftovers,
            StepModel::RemovePartialArchives,
        ] + plan::sweep_plan(swept) + plan::closing_plan(files),
        dropping(files) == plan::drop_plan() + plan::recount_plan(files),
{
    assert(deletion(false, unused, marker, deletions, files) =~= plan::delete_plan(
        marker,
        deletions,
    ) + plan::closing_plan(files));
    assert(finishing(false, unused, files) =~= plan::closing_plan(files));
    assert(cleaning(true, unused, swept, files) =~= plan::settle_plan(unused) + seq![
        StepModel::RemoveLeftovers,
        StepModel::RemovePartialArchives,
    ] + plan::sweep_plan(swept) + plan::closing_plan(files));
    assert(cleaning(false, unused, swept, files) =~= seq![
        StepModel::RemoveLeftovers,
        StepModel::RemovePartialArchives,
    ] + plan::sweep_plan(swept) + plan::closing_plan(files));
}

/// Chunks leave storage by the steps that say so, and by no others.
pub proof fn chunks_leave_by_their_steps(
    steps: Seq<StepModel>,
    world: World,
    change: Change,
    hash: ChunkHash,
)
    ensures
        run(steps, world, change).stored.contains(hash) <==> world.stored.contains(hash)
            && !steps.contains(StepModel::DeleteChunk(hash)) && !steps.contains(
            StepModel::SweepChunk(hash),
        ) && !steps.contains(StepModel::ReleaseChunk(hash, true)),
    decreases steps.len(),
{
    if steps.len() > 0 {
        let front = steps.drop_last();
        chunks_leave_by_their_steps(front, world, change, hash);
        one_more_step(steps, StepModel::DeleteChunk(hash));
        one_more_step(steps, StepModel::SweepChunk(hash));
        one_more_step(steps, StepModel::ReleaseChunk(hash, true));
    }
}

proof fn one_more_step(steps: Seq<StepModel>, step: StepModel)
    requires
        steps.len() > 0,
    ensures
        steps.contains(step) <==> steps.drop_last().contains(step) || steps.last() == step,
{
    if steps.contains(step) {
        let i = choose|i: int| 0 <= i < steps.len() && steps[i] == step;
        if i < steps.len() - 1 {
            assert(steps.drop_last()[i] == step);
        }
    }
    if steps.drop_last().contains(step) {
        let i = choose|i: int| 0 <= i < steps.drop_last().len() && steps.drop_last()[i] == step;
        assert(steps[i] == step);
    }
    if steps.last() == step {
        assert(steps[steps.len() - 1] == step);
    }
}

/// A deletion that runs to its end has deleted exactly the chunks of interrupted deletions that
/// were found unused, and those of its archive whose last reference went.
pub proof fn deletion_frees_what_goes(
    start: World,
    change: Change,
    settle: bool,
    unused: Seq<ChunkHash>,
    marker: Seq<char>,
    deletions: Seq<(ChunkHash, bool)>,
    files: Seq<Seq<char>>,
    hash: ChunkHash,
)
    ensures
        run(deletion(settle, unused, marker, deletions, files), start, change).stored.contains(
            hash,
        ) <==> start.stored.contains(hash) && !(settle && unused.contains(hash))
            && !deletions.contains((hash, true)),
{
    let steps = deletion(settle, unused, marker, deletions, files);
    chunks_leave_by_their_steps(steps, start, change, hash);
    plan::chunks_go_one_by_one(unused, marker, deletions);
    plan::markers_go_once_the_index_is_saved(files);
    let head: int = if settle {
        1 + unused.len() as int
    } else {
        0
    };
    if settle && unused.contains(hash) {
        let i = choose|i: int| 0 <= i < unused.len() && unused[i] == hash;
        assert(steps[1 + i] == StepModel::DeleteChunk(hash));
    }
    if deletions.contains((hash, true)) {
        let i = choose|i: int| 0 <= i < deletions.len() && deletions[i] == (hash, true);
        assert(steps[head + 3 + i] == StepModel::ReleaseChunk(hash, true));
    }
    if steps.contains(StepModel::DeleteChunk(hash)) {
        let k = choose|k: int| 0 <= k < steps.len() && steps[k] == StepModel::DeleteChunk(hash);
        assert(settle && 1 <= k < head);
        assert(unused[k - 1] == hash);
    }
    if steps.contains(StepModel::ReleaseChunk(hash, true)) {
        let k = choose|k: int|
            0 <= k < steps.len() && steps[k] == StepModel::ReleaseChunk(hash, true);
        assert(head + 3 <= k < head + 3 + deletions.len());
        assert(deletions[k - head - 3] == (hash, true));
    }
}

/// A cleaning that runs to its end has deleted exactly the chunks that were found unused and those
/// that were swept.
pub proof fn cleaning_frees_what_goes(
    start: World,
    change: Change,
    settle: bool,
    unused: Seq<ChunkHash>,
    swept: Seq<ChunkHash>,
    files: Seq<Seq<char>>,
    hash: ChunkHash,
)
    ensures
        run(cleaning(settle, unused, swept, files), start, change).stored.contains(hash)
            <==> start.stored.contains(hash) && !(settle && unused.contains(hash))
            && !swept.contains(hash),
{
    let steps = cleaning(settle, unused, swept, files);
    chunks_leave_by_their_steps(steps, start, change, hash);
    plan::chunks_go_one_by_one(unused, Seq::empty(), Seq::empty());
    plan::chunks_go_one_by_one(swept, Seq::empty(), Seq::empty());
    plan::markers_go_once_the_index_is_saved(files);
    let head: int = if settle {
        1 + unused.len() as int
    } else {
        0
    };
    if settle && unused.contains(hash) {
        let i = choose|i: int| 0 <= i < unused.len() && unused[i] == hash;
        assert(steps[1 + i] == StepModel::DeleteChunk(hash));
    }
    if swept.contains(hash) {
        let i = choose|i: int| 0 <= i < swept.len() && swept[i] == hash;
        assert(steps[head + 2 + i] == StepModel::SweepChunk(hash));
    }
    if steps.contains(StepModel::DeleteChunk(hash)) {
        let k = choose|k: int| 0 <= k < steps.len() && steps[k] == StepModel::DeleteChunk(hash);
        assert(settle && 1 <= k < head);
        assert(unused[k - 1] == hash);
    }
    if steps.contains(StepModel::SweepChunk(hash)) {
        let k = choose|k: int| 0 <= k < steps.len() && steps[k] == StepModel::SweepChunk(hash);
        assert(head + 2 <= k < head + 2 + swept.len());
        assert(swept[k - head - 2] == hash);
    }
}

} // verus!
