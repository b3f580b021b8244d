//! What changes a repository, step by step, in the order that a crash may interrupt anywhere.
use crate::chunks::hash::ChunkHash;
use crate::repository::markers;
use crate::repository::markers::removal_order;
use crate::repository::names;
use crate::repository::opening::AfterMigration;
use vstd::prelude::*;

verus! {

/// One change to a repository. Steps are taken in order; the first that fails ends them.
#[derive(Debug)]
pub enum Step {
    /// Makes moves between the archive directories durable.
    SyncArchiveDirs,
    /// Makes sure that there is a `deleting` directory.
    MakeDeletingDir,
    /// Moves the archive that is being deleted to a marker of this name.
    MoveToDeleting(String),
    /// Deletes a chunk, if it is there.
    DeleteChunk(ChunkHash),
    /// Reports that a reference to a chunk is gone, after deleting the chunk if it was the last.
    ReleaseChunk(ChunkHash, bool),
    /// Deletes a chunk, if it is there, and reports it.
    SweepChunk(ChunkHash),
    /// Removes what interrupted chunk writes left in storage.
    RemoveLeftovers,
    /// Removes half-written archives.
    RemovePartialArchives,
    /// Makes the chunks that were written durable.
    SyncStorage,
    /// Saves the index.
    SaveIndex,
    /// Writes the entry table of the new archive.
    WriteFooter,
    /// Makes the new archive durable under its hidden name.
    SyncArchive,
    /// Gives the new archive its name.
    PublishArchive,
    /// Makes the new archive's name durable.
    SyncArchivesDir,
    /// Removes a marker.
    RemoveMarker(String),
    /// Removes the archive that cannot be read.
    RemoveArchive,
    /// Copies the format 1 index, whose ids unmigrated archives need, durably beside itself. The
    /// index stays where it is.
    KeepIds,
    /// Removes the copy of the format 1 index.
    RemoveIds,
}

/// The mathematical value of a [`Step`].
pub enum StepModel {
    SyncArchiveDirs,
    MakeDeletingDir,
    MoveToDeleting(Seq<char>),
    DeleteChunk(ChunkHash),
    ReleaseChunk(ChunkHash, bool),
    SweepChunk(ChunkHash),
    RemoveLeftovers,
    RemovePartialArchives,
    SyncStorage,
    SaveIndex,
    WriteFooter,
    SyncArchive,
    PublishArchive,
    SyncArchivesDir,
    RemoveMarker(Seq<char>),
    RemoveArchive,
    KeepIds,
    RemoveIds,
}

pub open spec fn step_model(step: Step) -> StepModel {
    match step {
        Step::SyncArchiveDirs => StepModel::SyncArchiveDirs,
        Step::MakeDeletingDir => StepModel::MakeDeletingDir,
        Step::MoveToDeleting(marker) => StepModel::MoveToDeleting(marker@),
        Step::DeleteChunk(hash) => StepModel::DeleteChunk(hash),
        Step::ReleaseChunk(hash, deleted) => StepModel::ReleaseChunk(hash, deleted),
        Step::SweepChunk(hash) => StepModel::SweepChunk(hash),
        Step::RemoveLeftovers => StepModel::RemoveLeftovers,
        Step::RemovePartialArchives => StepModel::RemovePartialArchives,
        Step::SyncStorage => StepModel::SyncStorage,
        Step::SaveIndex => StepModel::SaveIndex,
        Step::WriteFooter => StepModel::WriteFooter,
        Step::SyncArchive => StepModel::SyncArchive,
        Step::PublishArchive => StepModel::PublishArchive,
        Step::SyncArchivesDir => StepModel::SyncArchivesDir,
        Step::RemoveMarker(marker) => StepModel::RemoveMarker(marker@),
        Step::RemoveArchive => StepModel::RemoveArchive,
        Step::KeepIds => StepModel::KeepIds,
        Step::RemoveIds => StepModel::RemoveIds,
    }
}

pub open spec fn steps_model(steps: Seq<Step>) -> Seq<StepModel> {
    steps.map_values(|step: Step| step_model(step))
}

/// Settling: the moves of the interrupted attempt may not be durable, so that comes first. Then
/// the chunks go that no live archive uses.
pub open spec fn settle_plan(unused: Seq<ChunkHash>) -> Seq<StepModel> {
    seq![StepModel::SyncArchiveDirs] + unused.map_values(
        |hash: ChunkHash| StepModel::DeleteChunk(hash),
    )
}

/// Deleting: the archive is moved away durably before a chunk goes. Deleting chunks before the
/// index is saved frees space even on a full disk.
pub open spec fn delete_plan(marker: Seq<char>, deletions: Seq<(ChunkHash, bool)>) -> Seq<
    StepModel,
> {
    seq![
        StepModel::MakeDeletingDir,
        StepModel::MoveToDeleting(marker),
        StepModel::SyncArchiveDirs,
    ] + deletions.map_values(
        |deletion: (ChunkHash, bool)| StepModel::ReleaseChunk(deletion.0, deletion.1),
    )
}

/// Cleaning: what nothing references goes.
pub open spec fn sweep_plan(unused: Seq<ChunkHash>) -> Seq<StepModel> {
    unused.map_values(|hash: ChunkHash| StepModel::SweepChunk(hash))
}

/// Closing: the index is saved, and only then are the markers removed.
pub open spec fn closing_plan(marker_files: Seq<Seq<char>>) -> Seq<StepModel> {
    seq![StepModel::SaveIndex] + markers::in_removal_order(marker_files).map_values(
        |marker: Seq<char>| StepModel::RemoveMarker(marker),
    )
}

/// Rebuilding: the new index leaves out the archives in `deleting`, so their moves are made durable
/// first.
pub open spec fn rebuild_plan(marker_files: Seq<Seq<char>>) -> Seq<StepModel> {
    seq![StepModel::SyncArchiveDirs, StepModel::SaveIndex] + marker_files.map_values(
        |marker: Seq<char>| StepModel::RemoveMarker(marker),
    )
}

/// Recounting: the archives are counted as they are, so what moved is made durable first.
pub open spec fn recount_plan(marker_files: Seq<Seq<char>>) -> Seq<StepModel> {
    seq![StepModel::SyncArchiveDirs] + closing_plan(marker_files)
}

/// Dropping an archive that cannot be read: its file is gone durably before the others are
/// counted.
pub open spec fn drop_plan() -> Seq<StepModel> {
    seq![StepModel::RemoveArchive, StepModel::SyncArchiveDirs]
}

/// Migrating an archive: it is whole and durable under a hidden name before it takes the place of
/// the old one.
pub open spec fn rewrite_plan() -> Seq<StepModel> {
    seq![StepModel::WriteFooter, StepModel::SyncArchive, StepModel::PublishArchive]
}

/// Closing a migration: the archives are durable before the index is replaced, and the ids in the
/// old index are kept before that while an archive still needs them.
pub open spec fn migration_plan(next: AfterMigration) -> Seq<StepModel> {
    match next {
        AfterMigration::Nothing => seq![StepModel::SyncArchivesDir],
        AfterMigration::KeepIdsAndRecount => seq![
            StepModel::SyncArchivesDir,
            StepModel::KeepIds,
            StepModel::SaveIndex,
        ],
        AfterMigration::Recount => seq![StepModel::SyncArchivesDir, StepModel::SaveIndex],
    }
}

/// Finishing a migration: the ids go once no archive is left that needs them, and everything has
/// been counted again.
pub open spec fn finish_plan(remaining: bool, marker_files: Seq<Seq<char>>) -> Seq<StepModel> {
    if remaining {
        seq![StepModel::SyncArchivesDir]
    } else {
        seq![StepModel::SyncArchivesDir] + recount_plan(marker_files) + seq![StepModel::RemoveIds]
    }
}

/// Publishing: chunks are durable before the index counts them, and the index counts them before
/// the archive has its name.
pub open spec fn publish_plan() -> Seq<StepModel> {
    seq![
        StepModel::SyncStorage,
        StepModel::SaveIndex,
        StepModel::WriteFooter,
        StepModel::SyncArchive,
        StepModel::PublishArchive,
        StepModel::SyncArchivesDir,
    ]
}

/// The steps that delete the chunks of interrupted deletions that no live archive uses.
pub fn settle_steps(unused: &Vec<ChunkHash>) -> (steps: Vec<Step>)
    ensures
        steps_model(steps@) == settle_plan(unused@),
{
    let mut steps: Vec<Step> = Vec::new();
    steps.push(Step::SyncArchiveDirs);
    let mut i: usize = 0;
    assert(steps_model(steps@) =~= settle_plan(unused@).take(1));
    while i < unused.len()
        invariant
            i <= unused@.len(),
            steps_model(steps@) == settle_plan(unused@).take(i + 1),
        decreases unused@.len() - i,
    {
        let ghost before = steps@;
        steps.push(Step::DeleteChunk(unused[i]));
        assert(steps_model(steps@) =~= steps_model(before).push(
            StepModel::DeleteChunk(unused@[i as int]),
        ));
        assert(steps_model(steps@) =~= settle_plan(unused@).take(i + 2));
        i = i + 1;
    }
    assert(settle_plan(unused@).take(i + 1) =~= settle_plan(unused@));
    steps
}

/// The steps that delete an archive and the chunks that only it used.
pub fn delete_steps(marker: String, deletions: &Vec<(ChunkHash, bool)>) -> (steps: Vec<Step>)
    ensures
        steps_model(steps@) == delete_plan(marker@, deletions@),
{
    let mut steps: Vec<Step> = Vec::new();
    let ghost plan = delete_plan(marker@, deletions@);
    steps.push(Step::MakeDeletingDir);
    steps.push(Step::MoveToDeleting(marker));
    steps.push(Step::SyncArchiveDirs);
    let mut i: usize = 0;
    assert(steps_model(steps@) =~= plan.take(3));
    while i < deletions.len()
        invariant
            i <= deletions@.len(),
            plan == delete_plan(marker@, deletions@),
            steps_model(steps@) == plan.take(i + 3),
        decreases deletions@.len() - i,
    {
        let ghost before = steps@;
        let (hash, deleted) = deletions[i];
        steps.push(Step::ReleaseChunk(hash, deleted));
        assert(steps_model(steps@) =~= steps_model(before).push(
            StepModel::ReleaseChunk(hash, deleted),
        ));
        assert(steps_model(steps@) =~= plan.take(i + 4));
        i = i + 1;
    }
    assert(plan.take(i + 3) =~= plan);
    steps
}

/// The steps that tidy up before chunks that nothing references are deleted.
pub fn tidy_steps() -> (steps: Vec<Step>)
    ensures
        steps_model(steps@) == seq![StepModel::RemoveLeftovers, StepModel::RemovePartialArchives],
{
    let mut steps: Vec<Step> = Vec::new();
    steps.push(Step::RemoveLeftovers);
    steps.push(Step::RemovePartialArchives);
    assert(steps_model(steps@) =~= seq![
        StepModel::RemoveLeftovers,
        StepModel::RemovePartialArchives,
    ]);
    steps
}

/// The steps that delete chunks that nothing references.
pub fn sweep_steps(unused: &Vec<ChunkHash>) -> (steps: Vec<Step>)
    ensures
        steps_model(steps@) == sweep_plan(unused@),
{
    let mut steps: Vec<Step> = Vec::new();
    let mut i: usize = 0;
    assert(steps_model(steps@) =~= sweep_plan(unused@).take(0));
    while i < unused.len()
        invariant
            i <= unused@.len(),
            steps_model(steps@) == sweep_plan(unused@).take(i as int),
        decreases unused@.len() - i,
    {
        let ghost before = steps@;
        steps.push(Step::SweepChunk(unused[i]));
        assert(steps_model(steps@) =~= steps_model(before).push(
            StepModel::SweepChunk(unused@[i as int]),
        ));
        assert(steps_model(steps@) =~= sweep_plan(unused@).take(i + 1));
        i = i + 1;
    }
    assert(sweep_plan(unused@).take(i as int) =~= sweep_plan(unused@));
    steps
}

/// The steps that end a deletion, a cleaning or a recount.
pub fn closing_steps(marker_files: &Vec<String>) -> (steps: Vec<Step>)
    ensures
        steps_model(steps@) == closing_plan(names::texts(marker_files@)),
{
    let ordered = removal_order(marker_files);
    let ghost plan = closing_plan(names::texts(marker_files@));
    let mut steps: Vec<Step> = Vec::new();
    steps.push(Step::SaveIndex);
    let mut i: usize = 0;
    assert(steps_model(steps@) =~= plan.take(1));
    while i < ordered.len()
        invariant
            i <= ordered@.len(),
            names::texts(ordered@) == markers::in_removal_order(names::texts(marker_files@)),
            plan == closing_plan(names::texts(marker_files@)),
            steps_model(steps@) == plan.take(i + 1),
        decreases ordered@.len() - i,
    {
        let ghost before = steps@;
        steps.push(Step::RemoveMarker(ordered[i].clone()));
        proof {
            let marker = names::texts(ordered@)[i as int];
            assert(steps_model(steps@) =~= steps_model(before).push(
                StepModel::RemoveMarker(marker),
            ));
            assert(plan[i + 1] == StepModel::RemoveMarker(marker));
        }
        assert(steps_model(steps@) =~= plan.take(i + 2));
        i = i + 1;
    }
    assert(plan.take(i + 1) =~= plan);
    steps
}

/// The steps that end a recount.
pub fn recount_steps(marker_files: &Vec<String>) -> (steps: Vec<Step>)
    ensures
        steps_model(steps@) == recount_plan(names::texts(marker_files@)),
{
    let mut steps: Vec<Step> = Vec::new();
    steps.push(Step::SyncArchiveDirs);
    let mut closing = closing_steps(marker_files);
    let ghost closing_part = closing@;
    steps.append(&mut closing);
    assert(steps_model(steps@) =~= seq![StepModel::SyncArchiveDirs] + steps_model(closing_part));
    steps
}

/// The steps that drop an archive that cannot be read. A recount follows.
pub fn drop_steps() -> (steps: Vec<Step>)
    ensures
        steps_model(steps@) == drop_plan(),
{
    let mut steps: Vec<Step> = Vec::new();
    steps.push(Step::RemoveArchive);
    steps.push(Step::SyncArchiveDirs);
    assert(steps_model(steps@) =~= drop_plan());
    steps
}

/// The steps that put a migrated archive in the place of the old one, once its entries are
/// written.
pub fn rewrite_steps() -> (steps: Vec<Step>)
    ensures
        steps_model(steps@) == rewrite_plan(),
{
    let mut steps: Vec<Step> = Vec::new();
    steps.push(Step::WriteFooter);
    steps.push(Step::SyncArchive);
    steps.push(Step::PublishArchive);
    assert(steps_model(steps@) =~= rewrite_plan());
    steps
}

/// The steps that close a migration, once the archives have been gone through. The index that they
/// save, if they do, has been counted from the archives as they then are.
pub fn migration_steps(next: AfterMigration) -> (steps: Vec<Step>)
    ensures
        steps_model(steps@) == migration_plan(next),
{
    let mut steps: Vec<Step> = Vec::new();
    steps.push(Step::SyncArchivesDir);
    if next == AfterMigration::KeepIdsAndRecount {
        steps.push(Step::KeepIds);
    }
    if next != AfterMigration::Nothing {
        steps.push(Step::SaveIndex);
    }
    assert(steps_model(steps@) =~= migration_plan(next));
    steps
}

/// The steps that close the migration of archives that an earlier one skipped. `remaining` says
/// whether any was skipped again.
pub fn finish_steps(remaining: bool, marker_files: &Vec<String>) -> (steps: Vec<Step>)
    ensures
        steps_model(steps@) == finish_plan(remaining, names::texts(marker_files@)),
{
    let mut steps: Vec<Step> = Vec::new();
    steps.push(Step::SyncArchivesDir);
    if !remaining {
        let mut recount = recount_steps(marker_files);
        let ghost recount_part = recount@;
        steps.append(&mut recount);
        steps.push(Step::RemoveIds);
        assert(steps_model(steps@) =~= seq![StepModel::SyncArchivesDir] + steps_model(recount_part)
            + seq![StepModel::RemoveIds]);
    } else {
        assert(steps_model(steps@) =~= seq![StepModel::SyncArchivesDir]);
    }
    steps
}

/// The steps that publish a backup once its entries are written.
pub fn publish_steps() -> (steps: Vec<Step>)
    ensures
        steps_model(steps@) == publish_plan(),
{
    let mut steps: Vec<Step> = Vec::new();
    steps.push(Step::SyncStorage);
    steps.push(Step::SaveIndex);
    steps.push(Step::WriteFooter);
    steps.push(Step::SyncArchive);
    steps.push(Step::PublishArchive);
    steps.push(Step::SyncArchivesDir);
    assert(steps_model(steps@) =~= publish_plan());
    steps
}

/// The steps that end a rebuild.
pub fn rebuild_steps(marker_files: &Vec<String>) -> (steps: Vec<Step>)
    ensures
        steps_model(steps@) == rebuild_plan(names::texts(marker_files@)),
{
    let ghost model = names::texts(marker_files@);
    let ghost plan = rebuild_plan(model);
    let mut steps: Vec<Step> = Vec::new();
    steps.push(Step::SyncArchiveDirs);
    steps.push(Step::SaveIndex);
    let mut i: usize = 0;
    assert(steps_model(steps@) =~= plan.take(2));
    while i < marker_files.len()
        invariant
            i <= marker_files@.len(),
            model == names::texts(marker_files@),
            plan == rebuild_plan(model),
            steps_model(steps@) == plan.take(i + 2),
        decreases marker_files@.len() - i,
    {
        let ghost before = steps@;
        steps.push(Step::RemoveMarker(marker_files[i].clone()));
        proof {
            let marker = model[i as int];
            assert(steps_model(steps@) =~= steps_model(before).push(
                StepModel::RemoveMarker(marker),
            ));
            assert(plan[i + 2] == StepModel::RemoveMarker(marker));
        }
        assert(steps_model(steps@) =~= plan.take(i + 3));
        i = i + 1;
    }
    assert(plan.take(i + 2) =~= plan);
    steps
}

/// Steps by value, one for each and in order, with all that they carry.
pub proof fn steps_by_value(steps: Seq<Step>, i: int)
    requires
        0 <= i < steps.len(),
    ensures
        steps_model(steps).len() == steps.len(),
        match (steps[i], steps_model(steps)[i]) {
            (Step::SyncArchiveDirs, StepModel::SyncArchiveDirs) => true,
            (Step::MakeDeletingDir, StepModel::MakeDeletingDir) => true,
            (Step::MoveToDeleting(marker), StepModel::MoveToDeleting(model)) => marker@ == model,
            (Step::DeleteChunk(hash), StepModel::DeleteChunk(model)) => hash == model,
            (Step::ReleaseChunk(hash, deleted), StepModel::ReleaseChunk(model, gone)) => hash
                == model && deleted == gone,
            (Step::SweepChunk(hash), StepModel::SweepChunk(model)) => hash == model,
            (Step::RemoveLeftovers, StepModel::RemoveLeftovers) => true,
            (Step::RemovePartialArchives, StepModel::RemovePartialArchives) => true,
            (Step::SyncStorage, StepModel::SyncStorage) => true,
            (Step::SaveIndex, StepModel::SaveIndex) => true,
            (Step::WriteFooter, StepModel::WriteFooter) => true,
            (Step::SyncArchive, StepModel::SyncArchive) => true,
            (Step::PublishArchive, StepModel::PublishArchive) => true,
            (Step::SyncArchivesDir, StepModel::SyncArchivesDir) => true,
            (Step::RemoveMarker(marker), StepModel::RemoveMarker(model)) => marker@ == model,
            (Step::RemoveArchive, StepModel::RemoveArchive) => true,
            (Step::KeepIds, StepModel::KeepIds) => true,
            (Step::RemoveIds, StepModel::RemoveIds) => true,
            _ => false,
        },
{
}

/// What chunks go, each by its own step: settling starts by making moves durable, a deletion by
/// moving the archive away durably.
pub proof fn chunks_go_one_by_one(
    unused: Seq<ChunkHash>,
    marker: Seq<char>,
    deletions: Seq<(ChunkHash, bool)>,
)
    ensures
        settle_plan(unused) == seq![StepModel::SyncArchiveDirs] + Seq::new(
            unused.len(),
            |i: int| StepModel::DeleteChunk(unused[i]),
        ),
        sweep_plan(unused) == Seq::new(unused.len(), |i: int| StepModel::SweepChunk(unused[i])),
        delete_plan(marker, deletions) == seq![
            StepModel::MakeDeletingDir,
            StepModel::MoveToDeleting(marker),
            StepModel::SyncArchiveDirs,
        ] + Seq::new(
            deletions.len(),
            |i: int| StepModel::ReleaseChunk(deletions[i].0, deletions[i].1),
        ),
{
    assert(settle_plan(unused) =~= seq![StepModel::SyncArchiveDirs] + Seq::new(
        unused.len(),
        |i: int| StepModel::DeleteChunk(unused[i]),
    ));
    assert(sweep_plan(unused) =~= Seq::new(
        unused.len(),
        |i: int| StepModel::SweepChunk(unused[i]),
    ));
    assert(delete_plan(marker, deletions) =~= seq![
        StepModel::MakeDeletingDir,
        StepModel::MoveToDeleting(marker),
        StepModel::SyncArchiveDirs,
    ] + Seq::new(
        deletions.len(),
        |i: int| StepModel::ReleaseChunk(deletions[i].0, deletions[i].1),
    ));
}

/// Markers go one by one, every one of them, and only once the index is saved. Where archives were
/// counted as they are, what moved is made durable before that.
pub proof fn markers_go_once_the_index_is_saved(files: Seq<Seq<char>>)
    ensures
        closing_plan(files) == seq![StepModel::SaveIndex] + Seq::new(
            files.len(),
            |i: int| StepModel::RemoveMarker(markers::in_removal_order(files)[i]),
        ),
        recount_plan(files) == seq![StepModel::SyncArchiveDirs] + closing_plan(files),
        rebuild_plan(files) == seq![StepModel::SyncArchiveDirs, StepModel::SaveIndex] + Seq::new(
            files.len(),
            |i: int| StepModel::RemoveMarker(files[i]),
        ),
        drop_plan() == seq![StepModel::RemoveArchive, StepModel::SyncArchiveDirs],
{
    markers::removal_keeps_every_marker(files);
    assert(closing_plan(files) =~= seq![StepModel::SaveIndex] + Seq::new(
        files.len(),
        |i: int| StepModel::RemoveMarker(markers::in_removal_order(files)[i]),
    ));
    assert(rebuild_plan(files) =~= seq![StepModel::SyncArchiveDirs, StepModel::SaveIndex]
        + Seq::new(files.len(), |i: int| StepModel::RemoveMarker(files[i])));
}

/// An archive gets its name once it is whole and durable; a new one, only once its chunks are
/// durable and counted. The ids of format 1 are kept before the index that holds them is replaced,
/// and go once no archive needs them and everything is counted.
pub proof fn archives_are_whole_before_they_are_named(remaining: bool, files: Seq<Seq<char>>)
    ensures
        publish_plan() == seq![
            StepModel::SyncStorage,
            StepModel::SaveIndex,
            StepModel::WriteFooter,
            StepModel::SyncArchive,
            StepModel::PublishArchive,
            StepModel::SyncArchivesDir,
        ],
        rewrite_plan() == seq![
            StepModel::WriteFooter,
            StepModel::SyncArchive,
            StepModel::PublishArchive,
        ],
        migration_plan(AfterMigration::Nothing) == seq![StepModel::SyncArchivesDir],
        migration_plan(AfterMigration::Recount) == seq![
            StepModel::SyncArchivesDir,
            StepModel::SaveIndex,
        ],
        migration_plan(AfterMigration::KeepIdsAndRecount) == seq![
            StepModel::SyncArchivesDir,
            StepModel::KeepIds,
            StepModel::SaveIndex,
        ],
        finish_plan(true, files) == seq![StepModel::SyncArchivesDir],
        finish_plan(false, files) == seq![StepModel::SyncArchivesDir] + recount_plan(files) + seq![
            StepModel::RemoveIds,
        ],
{
}

} // verus!
