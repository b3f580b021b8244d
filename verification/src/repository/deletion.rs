//! Deleting archives, finishing deletions that were interrupted, and cleaning up.
use crate::chunks::counting;
use crate::chunks::hash::ChunkHash;
use crate::chunks::index;
use crate::chunks::index::ChunkIndex;
use crate::chunks::settling;
use crate::entries;
use crate::entries::{collect_hashes, Entry};
use crate::error;
use crate::error::{is_damage, named, Error, ErrorKind};
use crate::repository::names;
use crate::repository::names::pending_name;
use crate::repository::plan;
use crate::repository::plan::{
    closing_steps, delete_steps, settle_steps, sweep_steps, Step, StepModel,
};
use crate::repository::survey;
use crate::repository::survey::{refuse_deletion, Survey};
use crate::repository::world;
use crate::text;
use crate::repository::settings::Repository;
use vstd::prelude::*;

verus! {

/// A marker, the path to show for it, and what opening it gave.
#[derive(Debug)]
pub struct MarkerReading {
    pub path: String,
    pub opened: Result<Vec<Entry>, Error>,
}

/// What is to be done about interrupted deletions.
#[derive(Debug)]
pub enum Settling {
    /// Count the chunks of the markers again.
    Chunks(Vec<ChunkHash>),
    /// Count everything again: an unreadable marker hides which chunks it held. No chunks of
    /// markers are settled then, but the moves to them still have to be made durable first.
    Recount,
}

/// How an archive is deleted.
#[derive(Debug, Clone, Copy, PartialEq, Eq, Structural)]
pub enum DeleteDecision {
    /// Settle what is pending, then give up the archive's chunks if it is live.
    Release,
    /// Its references cannot be read: drop the file and count everything again.
    DropAndRecount,
}

/// The steps of a deletion, with the chunks that they delete.
#[derive(Debug)]
pub struct DeletionPlan {
    /// Chunks of interrupted deletions that no live archive uses.
    pub unused: Vec<ChunkHash>,
    /// The chunks of the deleted archive, and whether each goes with it.
    pub deletions: Vec<(ChunkHash, bool)>,
    pub steps: Vec<Step>,
}

/// The mathematical value of gathering what markers hold.
pub enum Gathered {
    Chunks(Seq<ChunkHash>),
    Recount,
    Fail(error::ErrorModel),
}

/// The chunks that a marker holds.
pub open spec fn marker_hashes(reading: MarkerReading) -> Result<Seq<ChunkHash>, error::ErrorModel> {
    match reading.opened {
        Ok(entries) => entries::tree_hashes(entries@),
        Err(err) => Err(err@),
    }
}

/// The chunks that markers hold, one marker after the other.
pub open spec fn gathered(markers: Seq<MarkerReading>) -> Gathered
    decreases markers.len(),
{
    if markers.len() == 0 {
        Gathered::Chunks(Seq::empty())
    } else {
        match gathered(markers.drop_last()) {
            Gathered::Chunks(hashes) => match marker_hashes(markers.last()) {
                Ok(more) => Gathered::Chunks(hashes + more),
                Err(err) => if error::damage_kind(err.kind) || err.kind == ErrorKind::Unsupported {
                    Gathered::Recount
                } else {
                    Gathered::Fail(
                        error::error_model(
                            err.kind,
                            markers.last().path@ + ": "@ + err.message,
                        ),
                    )
                },
            },
            other => other,
        }
    }
}

/// Whether the deletion of an archive has begun.
pub open spec fn is_pending(marker_files: Seq<String>, name: Seq<char>) -> bool {
    name.len() > 0 && exists|i: int|
        0 <= i < marker_files.len() && names::pending_of((#[trigger] marker_files[i])@) == Some(
            name,
        )
}

pub open spec fn missing_model(name: Seq<char>) -> error::ErrorModel {
    error::error_model(ErrorKind::NotFound, "archive "@ + name + " does not exist"@)
}

/// How an archive is deleted, or why it is not.
pub open spec fn decided(
    name: Seq<char>,
    live: bool,
    marker_files: Seq<String>,
    surveys: Seq<Survey>,
) -> Result<DeleteDecision, error::ErrorModel> {
    let unreadable = survey::unreadable_names(surveys);
    if !live && !is_pending(marker_files, name) {
        Err(missing_model(name))
    } else if live && unreadable.contains(name) {
        Ok(DeleteDecision::DropAndRecount)
    } else if unreadable.len() > 0 {
        Err(survey::refusal_model(unreadable))
    } else {
        Ok(DeleteDecision::Release)
    }
}

/// Counts with what is pending settled, if anything is.
pub open spec fn settled_counts(
    counts: Map<ChunkHash, u64>,
    pending: Option<Seq<ChunkHash>>,
    live: Seq<ChunkHash>,
) -> Map<ChunkHash, u64> {
    match pending {
        Some(pending) => settling::settled(counts, pending, live),
        None => counts,
    }
}

/// Whether a list holds the chunks of interrupted deletions that no live archive uses, each once.
pub open spec fn is_unused_list(
    unused: Seq<ChunkHash>,
    pending: Option<Seq<ChunkHash>>,
    live: Seq<ChunkHash>,
) -> bool {
    match pending {
        Some(pending) => {
            &&& unused.no_duplicates()
            &&& forall|hash: ChunkHash| #[trigger]
                unused.contains(hash) <==> pending.contains(hash) && !live.contains(hash)
        },
        None => unused.len() == 0,
    }
}

/// The steps that settle, if anything is pending.
pub open spec fn settle_part(pending: bool, unused: Seq<ChunkHash>) -> Seq<StepModel> {
    if pending {
        plan::settle_plan(unused)
    } else {
        Seq::empty()
    }
}

/// A list that may be there, by value.
pub open spec fn list_model(list: Option<Vec<ChunkHash>>) -> Option<Seq<ChunkHash>> {
    match list {
        Some(list) => Some(list@),
        None => None,
    }
}

/// Gathers the chunks of interrupted deletions.
pub fn settle_decision(markers: &Vec<MarkerReading>) -> (settling: Result<Settling, Error>)
    ensures
        match (settling, gathered(markers@)) {
            (Ok(Settling::Chunks(hashes)), Gathered::Chunks(hashes_spec)) => hashes@ == hashes_spec,
            (Ok(Settling::Recount), Gathered::Recount) => true,
            (Err(err), Gathered::Fail(err_spec)) => err@ == err_spec,
            _ => false,
        },
{
    let mut hashes: Vec<ChunkHash> = Vec::new();
    let mut i: usize = 0;
    assert(markers@.take(0) =~= Seq::empty());
    while i < markers.len()
        invariant
            i <= markers@.len(),
            gathered(markers@.take(i as int)) == Gathered::Chunks(hashes@),
        decreases markers@.len() - i,
    {
        proof {
            assert(markers@.take(i + 1).drop_last() =~= markers@.take(i as int));
            assert(markers@.take(i + 1).last() == markers@[i as int]);
        }
        let result = match &markers[i].opened {
            Ok(entries) => collect_hashes(entries, &mut hashes),
            Err(err) => Err(err.duplicate()),
        };
        if let Err(err) = result {
            proof {
                gathered_prefix(markers@, i + 1);
            }
            if is_damage(&err) || err.kind == ErrorKind::Unsupported {
                return Ok(Settling::Recount);
            }
            return Err(named(markers[i].path.as_str(), err));
        }
        i = i + 1;
    }
    assert(markers@.take(i as int) =~= markers@);
    Ok(Settling::Chunks(hashes))
}

proof fn gathered_prefix(markers: Seq<MarkerReading>, n: int)
    requires
        0 <= n <= markers.len(),
        !(gathered(markers.take(n)) is Chunks),
    ensures
        gathered(markers) == gathered(markers.take(n)),
    decreases markers.len() - n,
{
    if n < markers.len() {
        assert(markers.take(n + 1).drop_last() =~= markers.take(n));
        gathered_prefix(markers, n + 1);
    } else {
        assert(markers.take(n) =~= markers);
    }
}

fn pending_among(marker_files: &Vec<String>, name: &str) -> (found: bool)
    ensures
        found == is_pending(marker_files@, name@),
{
    if name.unicode_len() == 0 {
        return false;
    }
    let mut i: usize = 0;
    while i < marker_files.len()
        invariant
            i <= marker_files@.len(),
            name@.len() > 0,
            forall|j: int|
                0 <= j < i ==> names::pending_of((#[trigger] marker_files@[j])@) != Some(name@),
        decreases marker_files@.len() - i,
    {
        if let Some(pending) = pending_name(marker_files[i].as_str()) {
            if text::same_text(pending.as_str(), name) {
                assert(names::pending_of(marker_files@[i as int]@) == Some(name@));
                return true;
            }
        }
        i = i + 1;
    }
    false
}

fn contains_text(list: &Vec<String>, wanted: &str) -> (found: bool)
    ensures
        found == names::texts(list@).contains(wanted@),
{
    let mut i: usize = 0;
    let ghost model = names::texts(list@);
    while i < list.len()
        invariant
            i <= list@.len(),
            model == names::texts(list@),
            forall|j: int| 0 <= j < i ==> #[trigger] model[j] != wanted@,
        decreases list@.len() - i,
    {
        if text::same_text(list[i].as_str(), wanted) {
            assert(model[i as int] == wanted@);
            return true;
        }
        i = i + 1;
    }
    false
}

/// Refuses to delete an archive that is not there, and whose deletion has not begun.
pub fn find_deletion(name: &str, live: bool, marker_files: &Vec<String>) -> (result: Result<
    (),
    Error,
>)
    ensures
        result is Ok <==> live || is_pending(marker_files@, name@),
        result is Err ==> result->Err_0@ == missing_model(name@),
        result is Ok <==> live || (name@.len() > 0 && exists|i: int|
            0 <= i < marker_files@.len() && names::pending_of((#[trigger] marker_files@[i])@)
                == Some(name@)),
        result is Err ==> result->Err_0.kind is NotFound && result->Err_0.message@ == "archive "@
            + name@ + " does not exist"@,
{
    if !live && !pending_among(marker_files, name) {
        return Err(
            Error::new(ErrorKind::NotFound, text::join3("archive ", name, " does not exist")),
        );
    }
    Ok(())
}

/// Decides how an archive is deleted. `live` says whether its file is there, `marker_files` which
/// deletions have begun.
pub fn delete_decision(
    name: &str,
    live: bool,
    marker_files: &Vec<String>,
    surveys: &Vec<Survey>,
) -> (decision: Result<DeleteDecision, Error>)
    ensures
        match (decision, decided(name@, live, marker_files@, surveys@)) {
            (Ok(decision), Ok(decision_spec)) => decision == decision_spec,
            (Err(err), Err(err_spec)) => err@ == err_spec,
            _ => false,
        },
{
    if let Err(err) = find_deletion(name, live, marker_files) {
        return Err(err);
    }
    let unreadable = Repository::unreadable_archives(surveys);
    if live && contains_text(&unreadable, name) {
        return Ok(DeleteDecision::DropAndRecount);
    }
    assert(names::texts(unreadable@).len() == unreadable@.len());
    match refuse_deletion(&unreadable) {
        Ok(()) => Ok(DeleteDecision::Release),
        Err(err) => Err(err),
    }
}

/// Finishes interrupted deletions, if there are any: counts their chunks again from the live
/// archives, and gives the steps that delete those that none uses.
pub fn settle_pending(
    index: &mut ChunkIndex,
    pending: &Option<Vec<ChunkHash>>,
    live: &Vec<ChunkHash>,
) -> (settled: (Vec<ChunkHash>, Vec<Step>))
    ensures
        final(index)@ == index::with_counts(
            old(index)@,
            settled_counts(old(index)@.counts, list_model(*pending), live@),
        ),
        is_unused_list(settled.0@, list_model(*pending), live@),
        plan::steps_model(settled.1@) == settle_part(pending is Some, settled.0@),
        *pending is None ==> final(index)@ == old(index)@ && settled.0@.len() == 0
            && settled.1@.len() == 0,
        *pending is Some ==> {
            &&& settled.0@.no_duplicates()
            &&& forall|hash: ChunkHash| #[trigger]
                settled.0@.contains(hash) <==> pending->0@.contains(hash) && !live@.contains(hash)
            &&& plan::steps_model(settled.1@) == plan::settle_plan(settled.0@)
            &&& final(index)@ == index::with_counts(
                old(index)@,
                settling::settled(old(index)@.counts, pending->0@, live@),
            )
        },
{
    match pending {
        Some(pending) => {
            let unused = index.settle(pending, live);
            let steps = settle_steps(&unused);
            (unused, steps)
        },
        None => {
            let steps: Vec<Step> = Vec::new();
            assert(plan::steps_model(steps@) =~= Seq::empty());
            (Vec::new(), steps)
        },
    }
}

impl Repository {
    /// Makes the plan of a deletion and brings the index to where it has to be saved. `pending` are
    /// the chunks of interrupted deletions, if there are any; `live` those of all live archives;
    /// `gone` those of the archive that goes, if it is live, and the marker it is moved to;
    /// `marker_files` the markers that there are.
    pub fn delete_archive(
        index: &mut ChunkIndex,
        pending: &Option<Vec<ChunkHash>>,
        live: &Vec<ChunkHash>,
        gone: Option<(Vec<ChunkHash>, String)>,
        marker_files: Vec<String>,
    ) -> (deletion: DeletionPlan)
        ensures
            is_unused_list(deletion.unused@, list_model(*pending), live@),
            ({
                let settled = settled_counts(old(index)@.counts, list_model(*pending), live@);
                match gone {
                    Some((hashes, marker)) => {
                        &&& final(index)@ == index::with_counts(
                            old(index)@,
                            counting::released(settled, hashes@),
                        )
                        &&& deletion.deletions@.len() == hashes@.len()
                        &&& forall|i: int|
                            0 <= i < hashes@.len() ==> #[trigger] deletion.deletions@[i] == (
                                hashes@[i],
                                counting::drops(settled, hashes@, i),
                            )
                        &&& plan::steps_model(deletion.steps@) == world::deletion(
                            pending is Some,
                            deletion.unused@,
                            marker@,
                            deletion.deletions@,
                            names::texts(marker_files@).push(marker@),
                        )
                    },
                    None => {
                        &&& final(index)@ == index::with_counts(old(index)@, settled)
                        &&& deletion.deletions@.len() == 0
                        &&& plan::steps_model(deletion.steps@) == world::finishing(
                            pending is Some,
                            deletion.unused@,
                            names::texts(marker_files@),
                        )
                    },
                }
            }),
    {
        let (unused, mut steps) = settle_pending(index, pending, live);
        let mut marker_files = marker_files;
        let mut deletions: Vec<(ChunkHash, bool)> = Vec::new();
        let ghost files = names::texts(marker_files@);
        let ghost settle_steps = steps@;
        if let Some((hashes, marker)) = gone {
            deletions = index.release(&hashes);
            let ghost before = marker_files@;
            marker_files.push(marker.clone());
            assert(names::texts(marker_files@) =~= names::texts(before).push(marker@));
            let mut more = delete_steps(marker, &deletions);
            let ghost delete_part = more@;
            steps.append(&mut more);
            assert(plan::steps_model(steps@) =~= plan::steps_model(settle_steps)
                + plan::steps_model(delete_part));
        }
        let ghost front = steps@;
        let mut closing = closing_steps(&marker_files);
        let ghost closing_part = closing@;
        steps.append(&mut closing);
        assert(plan::steps_model(steps@) =~= plan::steps_model(front) + plan::steps_model(
            closing_part,
        ));
        DeletionPlan { unused, deletions, steps }
    }
}

impl Repository {
    /// Makes the rest of the plan of a cleaning, once what is pending has been settled, and brings the
    /// index to where it has to be saved. `stored` is what storage then lists.
    pub fn clean(index: &mut ChunkIndex, stored: &Vec<ChunkHash>, marker_files: &Vec<String>) -> (swept:
        (Vec<ChunkHash>, Vec<Step>))
        ensures
            final(index)@ == index::with_counts(old(index)@, final(index)@.counts),
            forall|hash: ChunkHash| #[trigger]
                final(index)@.counts.contains_key(hash) <==> index::references_of(
                    old(index)@.counts,
                    hash,
                ) > 0,
            forall|hash: ChunkHash| #[trigger]
                final(index)@.counts.contains_key(hash) ==> final(index)@.counts[hash] == old(
                    index,
                )@.counts[hash],
            exists|zero: Seq<ChunkHash>| #[trigger]
                settling::zero_list(zero, old(index)@.counts) && swept.0@ == zero
                    + settling::orphans_in(stored@, old(index)@.counts),
            forall|hash: ChunkHash| #[trigger]
                swept.0@.contains(hash) <==> if old(index)@.counts.contains_key(hash) {
                    old(index)@.counts[hash] == 0
                } else {
                    stored@.contains(hash)
                },
            plan::steps_model(swept.1@) == plan::sweep_plan(swept.0@) + plan::closing_plan(
                names::texts(marker_files@),
            ),
    {
        let unused = index.sweep(stored);
        let mut steps = sweep_steps(&unused);
        let ghost front = steps@;
        let mut closing = closing_steps(marker_files);
        let ghost closing_part = closing@;
        steps.append(&mut closing);
        assert(plan::steps_model(steps@) =~= plan::steps_model(front) + plan::steps_model(
            closing_part,
        ));
        (unused, steps)
    }
}

/// Where nothing is pending, nothing is settled; else the chunks that are pending are counted
/// afresh, and those that no live archive uses are unused.
pub proof fn settling_of_what_is_pending(
    counts: Map<ChunkHash, u64>,
    unused: Seq<ChunkHash>,
    pending: Seq<ChunkHash>,
    live: Seq<ChunkHash>,
)
    ensures
        settled_counts(counts, None, live) == counts,
        settled_counts(counts, Some(pending), live) == settling::settled(counts, pending, live),
        is_unused_list(unused, None, live) <==> unused.len() == 0,
        is_unused_list(unused, Some(pending), live) <==> unused.no_duplicates() && forall|
            hash: ChunkHash,
        | #[trigger]
            unused.contains(hash) <==> pending.contains(hash) && !live.contains(hash),
        settle_part(false, unused) == Seq::<StepModel>::empty(),
        settle_part(true, unused) == plan::settle_plan(unused),
{
}

/// What markers hold, marker by marker: their chunks, all of them and in order. One that is corrupt
/// or not supported asks for a recount; any other error is told with the marker's path.
pub proof fn markers_one_by_one(front: Seq<MarkerReading>, last: MarkerReading)
    ensures
        gathered(Seq::empty()) == Gathered::Chunks(Seq::empty()),
        !(gathered(front) is Chunks) ==> gathered(front.push(last)) == gathered(front),
        gathered(front) is Chunks ==> ({
            let read = match last.opened {
                Ok(entries) => entries::tree_hashes(entries@),
                Err(err) => Err(err@),
            };
            match read {
                Ok(more) => gathered(front.push(last)) == Gathered::Chunks(
                    gathered(front)->Chunks_0 + more,
                ),
                Err(err) => if err.kind is InvalidData || err.kind is InvalidInput || err.kind
                    is UnexpectedEof || err.kind is Unsupported {
                    gathered(front.push(last)) is Recount
                } else {
                    gathered(front.push(last)) == Gathered::Fail(
                        error::ErrorModel {
                            kind: err.kind,
                            message: last.path@ + ": "@ + err.message,
                        },
                    )
                },
            }
        }),
{
    assert(front.push(last).drop_last() =~= front);
}

/// How an archive is deleted: not at all if it is neither live nor pending; by dropping it if it is
/// live and cannot be read; not at all while another archive cannot be read; else by giving up its
/// chunks.
pub proof fn deletion_is_decided(
    name: Seq<char>,
    live: bool,
    marker_files: Seq<String>,
    surveys: Seq<Survey>,
)
    ensures
        ({
            let pending = name.len() > 0 && exists|i: int|
                0 <= i < marker_files.len() && names::pending_of((#[trigger] marker_files[i])@)
                    == Some(name);
            let unreadable = survey::unreadable_names(surveys);
            let decision = decided(name, live, marker_files, surveys);
            &&& !live && !pending ==> decision is Err && decision->Err_0.kind is NotFound
            &&& live && unreadable.contains(name) ==> decision == Ok::<_, error::ErrorModel>(
                DeleteDecision::DropAndRecount,
            )
            &&& (live || pending) && !(live && unreadable.contains(name)) && unreadable.len() > 0
                ==> decision is Err && decision->Err_0.kind is Unsupported
            &&& (live || pending) && unreadable.len() == 0 ==> decision == Ok::<
                _,
                error::ErrorModel,
            >(DeleteDecision::Release)
        }),
{
}

/// A list that may be there, by value.
pub proof fn lists_by_value(list: Vec<ChunkHash>)
    ensures
        list_model(Some(list)) == Some(list@),
        list_model(None) is None,
{
}

} // verus!
