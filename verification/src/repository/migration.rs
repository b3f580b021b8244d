//! That a migration from format 1 can stop anywhere and be run again.
//!
//! Format 1 archives list chunk ids, which only the format 1 index resolves. So that index, or a
//! copy of it, has to be there for as long as an archive needs it, and there has to be an index to
//! open the repository by. As in [`crate::repository::world`], what is not durable yet may be
//! found done or undone.
use crate::repository::opening::{AfterMigration, Volume};
use crate::repository::plan;
use crate::repository::plan::StepModel;
use vstd::prelude::*;

verus! {

/// The format of an index.
pub enum Format {
    Old,
    Current,
}

pub open spec fn is_old(index: Option<Format>) -> bool {
    index is Some && index->0 is Old
}

pub open spec fn is_current(index: Option<Format>) -> bool {
    index is Some && index->0 is Current
}

/// A repository that is being migrated.
#[verifier::ext_equal]
pub struct Legacy {
    pub archives: Seq<Volume>,
    /// The index, if there is one.
    pub index: Option<Format>,
    /// Whether there is a copy of the format 1 index.
    pub ids: bool,
}

/// A repository that is being migrated, as it is seen, and what of it is durable.
pub struct LegacyDisk {
    pub seen: Legacy,
    pub archives: Seq<Volume>,
    pub ids: bool,
}

/// A step, and the place of the archive that it is about.
pub type PlacedStep = (int, StepModel);

pub open spec fn legacy_after(step: PlacedStep, legacy: Legacy) -> Legacy {
    match step.1 {
        StepModel::PublishArchive => Legacy {
            archives: legacy.archives.update(step.0, Volume::Current),
            ..legacy
        },
        StepModel::KeepIds => Legacy { ids: true, ..legacy },
        StepModel::SaveIndex => Legacy { index: Some(Format::Current), ..legacy },
        StepModel::RemoveIds => Legacy { ids: false, ..legacy },
        _ => legacy,
    }
}

pub open spec fn legacy_disk_after(step: PlacedStep, disk: LegacyDisk) -> LegacyDisk {
    LegacyDisk {
        seen: legacy_after(step, disk.seen),
        archives: match step.1 {
            StepModel::SyncArchivesDir => disk.seen.archives,
            StepModel::SyncArchiveDirs => disk.seen.archives,
            _ => disk.archives,
        },
        ids: match step.1 {
            StepModel::KeepIds => true,
            _ => disk.ids,
        },
    }
}

pub open spec fn legacy_run(steps: Seq<PlacedStep>, disk: LegacyDisk) -> LegacyDisk
    decreases steps.len(),
{
    if steps.len() == 0 {
        disk
    } else {
        legacy_disk_after(steps.last(), legacy_run(steps.drop_last(), disk))
    }
}

/// Whether a repository may be found like this, now or after a crash: each archive as it is seen
/// or as it was made durable, and a copy of the index that was removed perhaps still there.
pub open spec fn may_find_legacy(disk: LegacyDisk, legacy: Legacy) -> bool {
    &&& legacy.index == disk.seen.index
    &&& legacy.ids == disk.seen.ids || legacy.ids == disk.ids
    &&& legacy.archives.len() == disk.seen.archives.len()
    &&& forall|i: int|
        0 <= i < legacy.archives.len() ==> #[trigger] legacy.archives[i] == disk.seen.archives[i]
            || legacy.archives[i] == disk.archives[i]
}

/// Whether a migration skips an archive.
pub open spec fn any_damaged(archives: Seq<Volume>) -> bool {
    exists|i: int| 0 <= i < archives.len() && #[trigger] archives[i] is Damaged
}

/// Whether there is an index to open the repository by, and the ids of format 1 are there for as
/// long as an archive may need them.
pub open spec fn resumable(legacy: Legacy) -> bool {
    &&& legacy.index is Some
    &&& (exists|i: int|
        0 <= i < legacy.archives.len() && (#[trigger] legacy.archives[i] is Old
            || legacy.archives[i] is Damaged)) ==> is_old(legacy.index) || legacy.ids
}

/// An archive once a migration has gone over it.
pub open spec fn done(volume: Volume) -> Volume {
    match volume {
        Volume::Old => Volume::Current,
        other => other,
    }
}

pub open spec fn all_done(archives: Seq<Volume>) -> Seq<Volume> {
    archives.map_values(|volume: Volume| done(volume))
}

/// The place of the first archive from `from` on that a migration fails at.
pub open spec fn reach(archives: Seq<Volume>, from: int) -> int
    decreases archives.len() - from,
{
    if from < 0 || from >= archives.len() {
        archives.len() as int
    } else if archives[from] is Blocked {
        from
    } else {
        reach(archives, from + 1)
    }
}

pub open spec fn about(place: int, steps: Seq<StepModel>) -> Seq<PlacedStep> {
    steps.map_values(|step: StepModel| (place, step))
}

/// The steps that migrate the first `n` archives.
pub open spec fn rewrites(archives: Seq<Volume>, n: int) -> Seq<PlacedStep>
    decreases n,
{
    if n <= 0 {
        Seq::empty()
    } else {
        rewrites(archives, n - 1) + if archives[n - 1] is Old {
            about(n - 1, plan::rewrite_plan())
        } else {
            Seq::empty()
        }
    }
}

/// The steps behind the archives: those of a migration, or of one that finishes an earlier one.
pub open spec fn closing(legacy: Legacy, marker_files: Seq<Seq<char>>) -> Seq<StepModel> {
    if is_old(legacy.index) {
        plan::migration_plan(
            if any_damaged(legacy.archives) {
                AfterMigration::KeepIdsAndRecount
            } else {
                AfterMigration::Recount
            },
        )
    } else {
        plan::finish_plan(any_damaged(legacy.archives), marker_files)
    }
}

/// What opening a repository does: nothing where the index is in the current format and no ids are
/// kept, else the migration of the archives up to the first that it fails at, and what closes it
/// if there is none.
pub open spec fn opening_row(legacy: Legacy, marker_files: Seq<Seq<char>>) -> Seq<PlacedStep> {
    if !is_old(legacy.index) && !legacy.ids {
        Seq::empty()
    } else {
        let n = reach(legacy.archives, 0);
        rewrites(legacy.archives, n) + if n < legacy.archives.len() {
            Seq::empty()
        } else {
            about(0, closing(legacy, marker_files))
        }
    }
}

/// Whether the archives that are durable are those that are seen, or not migrated yet.
pub open spec fn behind(durable: Seq<Volume>, seen: Seq<Volume>) -> bool {
    &&& durable.len() == seen.len()
    &&& forall|i: int|
        0 <= i < seen.len() ==> #[trigger] durable[i] == seen[i] || (durable[i] is Old && seen[i]
            is Current)
}

/// A repository where a migration may begin, or begin again: there is an index, and the ids are
/// there durably if the index does not hold them.
pub open spec fn may_begin(disk: LegacyDisk) -> bool {
    &&& disk.seen.index is Some
    &&& is_current(disk.seen.index) ==> disk.seen.ids && disk.ids
    &&& behind(disk.archives, disk.seen.archives)
}

proof fn reach_bounds(archives: Seq<Volume>, from: int)
    requires
        0 <= from <= archives.len(),
    ensures
        from <= reach(archives, from) <= archives.len(),
        forall|i: int| from <= i < reach(archives, from) ==> !(#[trigger] archives[i] is Blocked),
        reach(archives, from) < archives.len() ==> archives[reach(archives, from)] is Blocked,
    decreases archives.len() - from,
{
    if from < archives.len() && !(archives[from] is Blocked) {
        reach_bounds(archives, from + 1);
    }
}

/// Each step of the rewriting is one of an archive in format 1.
proof fn rewrites_steps(archives: Seq<Volume>, n: int, j: int)
    requires
        0 <= n <= archives.len(),
        0 <= j < rewrites(archives, n).len(),
    ensures
        ({
            let (place, step) = rewrites(archives, n)[j];
            &&& 0 <= place < n
            &&& archives[place] is Old
            &&& step == StepModel::WriteFooter || step == StepModel::SyncArchive || step
                == StepModel::PublishArchive
        }),
    decreases n,
{
    if n > 0 {
        let front = rewrites(archives, n - 1);
        if j < front.len() {
            rewrites_steps(archives, n - 1, j);
        } else {
            assert(archives[n - 1] is Old);
            assert(rewrites(archives, n)[j] == about(n - 1, plan::rewrite_plan())[j - front.len()]);
        }
    }
}

/// While archives are rewritten, each is as it was or migrated, and nothing else changes.
proof fn rewriting_states(disk: LegacyDisk, n: int, k: int)
    requires
        0 <= n <= disk.seen.archives.len(),
        0 <= k <= rewrites(disk.seen.archives, n).len(),
    ensures
        ({
            let end = legacy_run(rewrites(disk.seen.archives, n).take(k), disk);
            &&& end.seen.index == disk.seen.index
            &&& end.seen.ids == disk.seen.ids
            &&& end.ids == disk.ids
            &&& end.archives == disk.archives
            &&& end.seen.archives.len() == disk.seen.archives.len()
            &&& forall|i: int|
                0 <= i < disk.seen.archives.len() ==> #[trigger] end.seen.archives[i]
                    == disk.seen.archives[i] || end.seen.archives[i] == done(
                    disk.seen.archives[i],
                )
        }),
    decreases k,
{
    let steps = rewrites(disk.seen.archives, n);
    if k == 0 {
        assert(steps.take(0) =~= Seq::empty());
    } else {
        rewriting_states(disk, n, k - 1);
        rewrites_steps(disk.seen.archives, n, k - 1);
        assert(steps.take(k).drop_last() =~= steps.take(k - 1));
        assert(steps.take(k).last() == steps[k - 1]);
    }
}

proof fn legacy_run_concat(a: Seq<PlacedStep>, b: Seq<PlacedStep>, disk: LegacyDisk)
    ensures
        legacy_run(a + b, disk) == legacy_run(b, legacy_run(a, disk)),
    decreases b.len(),
{
    if b.len() == 0 {
        assert(a + b =~= a);
    } else {
        assert((a + b).drop_last() =~= a + b.drop_last());
        legacy_run_concat(a, b.drop_last(), disk);
    }
}

/// Once the first `n` archives have been rewritten, they are migrated, and the others are as they
/// were.
proof fn rewriting_ends(disk: LegacyDisk, n: int)
    requires
        0 <= n <= disk.seen.archives.len(),
    ensures
        ({
            let end = legacy_run(rewrites(disk.seen.archives, n), disk);
            &&& end.seen.archives.len() == disk.seen.archives.len()
            &&& forall|i: int|
                0 <= i < disk.seen.archives.len() ==> #[trigger] end.seen.archives[i] == if i < n {
                    done(disk.seen.archives[i])
                } else {
                    disk.seen.archives[i]
                }
        }),
    decreases n,
{
    if n > 0 {
        rewriting_ends(disk, n - 1);
        let front = rewrites(disk.seen.archives, n - 1);
        let middle = legacy_run(front, disk);
        if disk.seen.archives[n - 1] is Old {
            let back = about(n - 1, plan::rewrite_plan());
            legacy_run_concat(front, back, disk);
            let one = back.drop_last();
            let two = one.drop_last();
            assert(back.last() == (n - 1, StepModel::PublishArchive));
            assert(one.last() == (n - 1, StepModel::SyncArchive));
            assert(two.last() == (n - 1, StepModel::WriteFooter));
            assert(two.drop_last() =~= Seq::empty());
            assert(legacy_run(two.drop_last(), middle) == middle);
            assert(legacy_run(two, middle).seen == middle.seen);
            assert(legacy_run(one, middle).seen == middle.seen);
        } else {
            assert(front + Seq::<PlacedStep>::empty() =~= front);
        }
    }
}

/// What closes a migration keeps the archives, makes them durable before anything else, and keeps
/// an index and the ids that are needed.
proof fn closing_states(disk: LegacyDisk, start: Legacy, marker_files: Seq<Seq<char>>, k: int)
    requires
        start.index is Some,
        disk.seen.index == start.index,
        disk.seen.ids == start.ids,
        is_current(start.index) ==> start.ids && disk.ids,
        0 <= k <= closing(start, marker_files).len(),
    ensures
        ({
            let steps = about(0, closing(start, marker_files));
            let end = legacy_run(steps.take(k), disk);
            &&& end.seen.archives == disk.seen.archives
            &&& end.seen.index is Some
            &&& k == 0 ==> end == disk
            &&& k >= 1 ==> end.archives == disk.seen.archives
            &&& any_damaged(start.archives) ==> is_old(end.seen.index) || (
            end.seen.ids && end.ids)
            &&& is_old(start.index) && k < closing(start, marker_files).len()
                ==> is_old(end.seen.index)
            &&& is_current(start.index) ==> is_current(end.seen.index)
                && end.ids && (k < closing(start, marker_files).len() ==> end.seen.ids)
            &&& k == closing(start, marker_files).len() ==> is_current(end.seen.index)
                && (is_old(start.index) ==> end.seen.ids == (start.ids || any_damaged(
                start.archives,
            ))) && (is_current(start.index) ==> end.seen.ids == any_damaged(
                start.archives,
            ))
        }),
    decreases k,
{
    let plan = closing(start, marker_files);
    let steps = about(0, plan);
    if k == 0 {
        assert(steps.take(0) =~= Seq::empty());
        assert(plan.len() > 0);
    } else {
        closing_states(disk, start, marker_files, k - 1);
        assert(steps.take(k).drop_last() =~= steps.take(k - 1));
        assert(steps.take(k).last() == (0int, plan[k - 1]));
        if is_old(start.index) {
            closing_of_migration(disk, start, marker_files, k);
        } else if any_damaged(start.archives) {
            assert(plan.len() == 1);
        } else {
            let recount = plan::recount_plan(marker_files);
            let closing_plan = plan::closing_plan(marker_files);
            assert(plan.len() == recount.len() + 2);
            if k == plan.len() {
                assert(plan[k - 1] == StepModel::RemoveIds);
            } else if k > 1 {
                assert(plan[k - 1] == recount[k - 2]);
                if k > 2 {
                    assert(recount[k - 2] == closing_plan[k - 3]);
                    assert(closing_plan[k - 3] is SaveIndex || closing_plan[k - 3] is RemoveMarker);
                }
            }
        }
    }
}

proof fn closing_of_migration(
    disk: LegacyDisk,
    start: Legacy,
    marker_files: Seq<Seq<char>>,
    k: int,
)
    requires
        is_old(start.index),
        disk.seen.index == start.index,
        disk.seen.ids == start.ids,
        0 <= k <= closing(start, marker_files).len(),
    ensures
        ({
            let len = closing(start, marker_files).len();
            let end = legacy_run(about(0, closing(start, marker_files)).take(k), disk);
            &&& k < len ==> is_old(end.seen.index)
            &&& k == len ==> is_current(end.seen.index)
            &&& any_damaged(start.archives) && k >= 2 ==> end.seen.ids && end.ids
            &&& any_damaged(start.archives) ==> len == 3
            &&& !any_damaged(start.archives) ==> len == 2 && end.seen.ids == start.ids
        }),
    decreases k,
{
    let plan = closing(start, marker_files);
    let steps = about(0, plan);
    if k == 0 {
        assert(steps.take(0) =~= Seq::empty());
    } else {
        closing_of_migration(disk, start, marker_files, k - 1);
        assert(steps.take(k).drop_last() =~= steps.take(k - 1));
        assert(steps.take(k).last() == (0int, plan[k - 1]));
    }
}

/// Wherever a migration is interrupted, and whatever a crash then leaves of it, there is an index
/// to open the repository by, and the ids of format 1 are there for as long as an archive needs
/// them. Each archive is as it was, or migrated.
pub proof fn migration_is_safe(
    start: LegacyDisk,
    marker_files: Seq<Seq<char>>,
    k: int,
    found: Legacy,
)
    requires
        may_begin(start),
        0 <= k <= opening_row(start.seen, marker_files).len(),
        may_find_legacy(
            legacy_run(opening_row(start.seen, marker_files).take(k), start),
            found,
        ),
    ensures
        resumable(found),
        found.archives.len() == start.seen.archives.len(),
        forall|i: int|
            0 <= i < found.archives.len() ==> done(#[trigger] found.archives[i]) == done(
                start.seen.archives[i],
            ),
{
    let row = opening_row(start.seen, marker_files);
    let n = reach(start.seen.archives, 0);
    reach_bounds(start.seen.archives, 0);
    let front = rewrites(start.seen.archives, n);
    let end = legacy_run(row.take(k), start);
    if n < start.seen.archives.len() {
        assert(row =~= front);
    }
    assert forall|i: int| 0 <= i < start.seen.archives.len() implies done(
        #[trigger] start.archives[i],
    ) == done(start.seen.archives[i]) by {}
    if k <= front.len() {
        assert(row.take(k) =~= front.take(k));
        rewriting_states(start, n, k);
        assert forall|i: int| 0 <= i < found.archives.len() implies done(
            #[trigger] found.archives[i],
        ) == done(start.seen.archives[i]) by {
            assert(end.seen.archives[i] == start.seen.archives[i] || end.seen.archives[i] == done(
                start.seen.archives[i],
            ));
            assert(done(start.archives[i]) == done(start.seen.archives[i]));
        }
    } else {
        let back = about(0, closing(start.seen, marker_files));
        let j = k - front.len();
        let middle = legacy_run(front, start);
        assert(row.take(k) =~= front + back.take(j));
        legacy_run_concat(front, back.take(j), start);
        assert(front.take(front.len() as int) =~= front);
        rewriting_states(start, n, front.len() as int);
        rewriting_ends(start, n);
        closing_states(middle, start.seen, marker_files, j);
        assert(n == start.seen.archives.len());
        assert forall|i: int| 0 <= i < found.archives.len() implies #[trigger] found.archives[i]
            == done(start.seen.archives[i]) by {
            assert(middle.seen.archives[i] == done(start.seen.archives[i]));
        }
        if !any_damaged(start.seen.archives) {
            assert forall|i: int| 0 <= i < found.archives.len() implies !(
            #[trigger] found.archives[i] is Old) && !(found.archives[i] is Damaged) by {
                assert(!(start.seen.archives[i] is Damaged));
            }
        }
    }
}

/// A migration that was interrupted anywhere, by a crash or by an archive that could not be read,
/// is finished by opening the repository again, once what stopped it is gone: the index is in the
/// current format, every archive that is not damaged is migrated, and the ids are kept if one is.
/// `again` are the archives as they are met then.
pub proof fn migration_resumes(
    start: LegacyDisk,
    marker_files: Seq<Seq<char>>,
    k: int,
    found: Legacy,
    again: Seq<Volume>,
    later_markers: Seq<Seq<char>>,
)
    requires
        may_begin(start),
        0 <= k <= opening_row(start.seen, marker_files).len(),
        may_find_legacy(
            legacy_run(opening_row(start.seen, marker_files).take(k), start),
            found,
        ),
        again.len() == found.archives.len(),
        forall|i: int|
            0 <= i < again.len() ==> !(#[trigger] again[i] is Blocked) && (again[i]
                == found.archives[i] || found.archives[i] is Blocked),
    ensures
        ({
            let met = Legacy { archives: again, ..found };
            let end = legacy_run(
                opening_row(met, later_markers),
                LegacyDisk { seen: met, archives: again, ids: met.ids },
            ).seen;
            &&& is_current(end.index)
            &&& end.archives == all_done(again)
            &&& any_damaged(again) ==> end.ids
            &&& forall|i: int|
                0 <= i < again.len() && !(start.seen.archives[i] is Blocked)
                    ==> #[trigger] end.archives[i] == done(start.seen.archives[i])
        }),
{
    migration_is_safe(start, marker_files, k, found);
    let met = Legacy { archives: again, ..found };
    let disk = LegacyDisk { seen: met, archives: again, ids: met.ids };
    let n = reach(again, 0);
    reach_bounds(again, 0);
    assert(n == again.len());
    assert forall|i: int|
        0 <= i < again.len() && !(start.seen.archives[i] is Blocked) implies done(
        #[trigger] again[i],
    ) == done(start.seen.archives[i]) by {
        assert(done(found.archives[i]) == done(start.seen.archives[i]));
    }
    if !is_old(met.index) && !met.ids {
        assert(opening_row(met, later_markers) =~= Seq::empty());
        not_blocked_at_the_end(start, marker_files, k, found);
        assert forall|i: int| 0 <= i < again.len() implies #[trigger] again[i] == done(
            again[i],
        ) && !(again[i] is Damaged) by {
            assert(again[i] == found.archives[i]);
        }
        assert(again =~= all_done(again));
    } else {
        let front = rewrites(again, n);
        let back = about(0, closing(met, later_markers));
        legacy_run_concat(front, back, disk);
        rewriting_ends(disk, n);
        assert(front.take(front.len() as int) =~= front);
        rewriting_states(disk, n, front.len() as int);
        let middle = legacy_run(front, disk);
        closing_states(middle, met, later_markers, back.len() as int);
        assert(back.take(back.len() as int) =~= back);
        assert(middle.seen.archives =~= all_done(again));
    }
}

/// An index in the current format without kept ids is only found once no archive is left to
/// migrate and none was in the way.
proof fn not_blocked_at_the_end(
    start: LegacyDisk,
    marker_files: Seq<Seq<char>>,
    k: int,
    found: Legacy,
)
    requires
        may_begin(start),
        0 <= k <= opening_row(start.seen, marker_files).len(),
        may_find_legacy(
            legacy_run(opening_row(start.seen, marker_files).take(k), start),
            found,
        ),
        !is_old(found.index),
        !found.ids,
    ensures
        forall|i: int|
            0 <= i < found.archives.len() ==> #[trigger] found.archives[i] is Current,
{
    let row = opening_row(start.seen, marker_files);
    let n = reach(start.seen.archives, 0);
    reach_bounds(start.seen.archives, 0);
    let front = rewrites(start.seen.archives, n);
    migration_is_safe(start, marker_files, k, found);
    if n < start.seen.archives.len() {
        assert(row =~= front);
    }
    if k <= front.len() {
        assert(row.take(k) =~= front.take(k));
        rewriting_states(start, n, k);
    }
    assert(n == start.seen.archives.len());
    assert forall|i: int| 0 <= i < found.archives.len() implies #[trigger] found.archives[i]
        is Current by {
        assert(!(start.seen.archives[i] is Blocked));
        assert(done(found.archives[i]) == done(start.seen.archives[i]));
        assert(!(found.archives[i] is Old) && !(found.archives[i] is Damaged));
    }
}

} // verus!
