//! Opening a repository, rebuilding its index, and migrating it from format 1.
use crate::chunks::hash::{ChunkHash, HashAlgorithm};
use crate::chunks::header;
use crate::chunks::header::IndexHeader;
use crate::chunks::index;
use crate::chunks::index::ChunkIndex;
use crate::entries::Entry;
use crate::error;
use crate::error::{is_damage, Error, ErrorKind};
use crate::migrate;
use crate::migrate::migrate_v1_entries;
use crate::repository::survey::OpenArchive;
use crate::text;
use std::collections::HashMap;
use vstd::bytes::*;
use vstd::prelude::*;
use vstd::slice::slice_subrange;

verus! {

/// What opening a repository has to do first.
#[derive(Debug, Clone, Copy, PartialEq, Eq, Structural)]
pub enum OpenStep {
    /// Migrate it from format 1.
    Migrate,
    /// Migrate archives that an earlier migration skipped.
    FinishMigration,
    Nothing,
}

/// What becomes of an archive in a migration.
#[derive(Debug)]
pub enum Migration {
    /// It is not in format 1.
    Keep,
    /// It is damaged, and skipped for now.
    Skip,
    /// It is written again with these entries.
    Rewrite(Vec<Entry>),
}

/// What follows the migration of the archives.
#[derive(Debug, Clone, Copy, PartialEq, Eq, Structural)]
pub enum AfterMigration {
    /// A rebuild comes next and writes the index itself.
    Nothing,
    /// Keep the old index for the archives that were skipped, then recount.
    KeepIdsAndRecount,
    /// Recount: interrupted backups of that era left the old counts too low.
    Recount,
}

/// Whether an error says that there is no index that can be read, rather than that reading it
/// failed.
pub open spec fn no_index(kind: ErrorKind) -> bool {
    kind == ErrorKind::NotFound || error::damage_kind(kind)
}

/// The process that the lock file of a version from before archive format 2 names as writing.
pub open spec fn writer_in(state: Seq<u8>) -> Option<u32> {
    if state.len() >= 24 && state[8] != 0 && 0 < header::u64_at(state, 16) <= u32::MAX {
        Some(header::u64_at(state, 16) as u32)
    } else {
        None
    }
}

pub open spec fn writer_model(pid: u32) -> error::ErrorModel {
    error::error_model(
        ErrorKind::WouldBlock,
        "process "@ + text::decimal_text(pid as nat)
            + " is writing to this repository with a version of ddup-bak from before archive format 2. Stop it before opening the repository with this version, or it will save its own index over the migrated one"@,
    )
}

/// The chunk ids that a migration resolves. `None` when the index is not in format 1 any more.
pub open spec fn ids_to_migrate(salvage: bool, bytes: Seq<u8>) -> Result<
    Option<Map<u64, ChunkHash>>,
    error::ErrorModel,
> {
    match header::opened(bytes) {
        Ok(open) => if open.header.version != 1 {
            Ok(None)
        } else {
            match if salvage {
                index::salvaged_v1(bytes)
            } else {
                index::loaded_v1(bytes)
            } {
                Ok((_, ids)) => Ok(Some(ids)),
                Err(err) => Err(err),
            }
        },
        Err(err) => Err(err),
    }
}

/// A map of ids that may be there, or an error, by value.
pub open spec fn ids_model(result: Result<Option<HashMap<u64, ChunkHash>>, Error>) -> Result<
    Option<Map<u64, ChunkHash>>,
    error::ErrorModel,
> {
    match result {
        Ok(Some(ids)) => Ok(Some(ids@)),
        Ok(None) => Ok(None),
        Err(err) => Err(err@),
    }
}

/// Why the migration of an archive fails, if it does.
pub open spec fn migration_error(
    opened: Result<OpenArchive, Error>,
    ids: Map<u64, ChunkHash>,
) -> Option<error::ErrorModel> {
    match opened {
        Ok(archive) => if archive.version != 1 {
            None
        } else {
            match migrate::tree_hashes_v1(archive.entries@, ids) {
                Ok(_) => None,
                Err(err) => Some(err),
            }
        },
        Err(err) => Some(err@),
    }
}

/// An archive, as a migration meets it.
pub enum Volume {
    /// In a format that needs no migration.
    Current,
    /// In format 1, with ids that all resolve.
    Old,
    /// It cannot be read, or an id in it does not resolve.
    Damaged,
    /// Reading it failed for a reason that says nothing about it.
    Blocked,
}

/// What a migration that resolves ids through `ids` meets in an archive.
pub open spec fn volume_of(opened: Result<OpenArchive, Error>, ids: Map<u64, ChunkHash>) -> Volume {
    match migration_error(opened, ids) {
        Some(err) => if error::damage_kind(err.kind) {
            Volume::Damaged
        } else {
            Volume::Blocked
        },
        None => if opened->Ok_0.version == 1 {
            Volume::Old
        } else {
            Volume::Current
        },
    }
}

/// Decides what opening a repository has to do first. `legacy_ids` says whether the index of an
/// earlier migration is still kept.
pub fn open_step(header: IndexHeader, legacy_ids: bool) -> (step: OpenStep)
    ensures
        step == if header.version == 1 {
            OpenStep::Migrate
        } else if legacy_ids {
            OpenStep::FinishMigration
        } else {
            OpenStep::Nothing
        },
{
    if header.version == 1 {
        OpenStep::Migrate
    } else if legacy_ids {
        OpenStep::FinishMigration
    } else {
        OpenStep::Nothing
    }
}

/// Decides whether a rebuild migrates first. Format 1 archives need the old index to resolve, so
/// that has to happen while it still exists. With no index that can be read there is nothing to
/// migrate.
pub fn migrates_first(header: Result<IndexHeader, Error>) -> (migrates: Result<bool, Error>)
    ensures
        match header {
            Ok(header) => migrates is Ok && migrates->Ok_0 == (header.version == 1),
            Err(err) => if no_index(err.kind) {
                migrates is Ok && !migrates->Ok_0
            } else {
                migrates is Err && migrates->Err_0 == err
            },
        },
        header is Err ==> (migrates is Ok <==> header->Err_0.kind is NotFound
            || header->Err_0.kind is InvalidData || header->Err_0.kind is InvalidInput
            || header->Err_0.kind is UnexpectedEof),
{
    match header {
        Ok(header) => Ok(header.version == 1),
        Err(err) => if err.kind == ErrorKind::NotFound || is_damage(&err) {
            Ok(false)
        } else {
            Err(err)
        },
    }
}

/// The hash algorithm of a repository that is rebuilt: the one its chunks tell, else the one its
/// index records, else the default.
pub fn rebuild_algorithm(
    detected: Option<HashAlgorithm>,
    header: Result<IndexHeader, Error>,
) -> (algorithm: Result<HashAlgorithm, Error>)
    ensures
        match (detected, header) {
            (Some(detected), _) => algorithm is Ok && algorithm->Ok_0 == detected,
            (None, Ok(header)) => algorithm is Ok && algorithm->Ok_0 == header.hash_algorithm,
            (None, Err(err)) => if no_index(err.kind) {
                algorithm is Ok && algorithm->Ok_0 == HashAlgorithm::Blake2b256
            } else {
                algorithm is Err && algorithm->Err_0 == err
            },
        },
        detected is None && header is Err ==> (algorithm is Ok <==> header->Err_0.kind is NotFound
            || header->Err_0.kind is InvalidData || header->Err_0.kind is InvalidInput
            || header->Err_0.kind is UnexpectedEof),
{
    match detected {
        Some(algorithm) => Ok(algorithm),
        // No chunks to detect from, so keep the index's algorithm.
        None => match header {
            Ok(header) => Ok(header.hash_algorithm),
            Err(err) => if err.kind == ErrorKind::NotFound || is_damage(&err) {
                Ok(HashAlgorithm::default())
            } else {
                Err(err)
            },
        },
    }
}

/// The process that an old lock file names as writing. Whether it still runs is another question.
pub fn legacy_writer(state: &[u8]) -> (pid: Option<u32>)
    ensures
        pid == writer_in(state@),
        ({
            let number = spec_u64_from_le_bytes(state@.subrange(16, 24));
            if state@.len() >= 24 && state@[8] != 0 && 0 < number <= 0xffff_ffff {
                pid is Some && pid->0 == number
            } else {
                pid is None
            }
        }),
{
    if state.len() < 24 || state[8] == 0 {
        return None;
    }
    let number: u64 = u64_from_le_bytes(slice_subrange(state, 16, 24));
    if number == 0 || number > u32::MAX as u64 {
        return None;
    }
    Some(number as u32)
}

/// Refuses to migrate while an old version is writing. `pid` is a process that still runs.
pub fn refuse_writer(pid: Option<u32>) -> (result: Result<(), Error>)
    ensures
        result is Ok <==> pid is None,
        result is Err ==> result->Err_0@ == writer_model(pid->0),
        result is Err ==> result->Err_0.kind is WouldBlock && result->Err_0.message@ == "process "@
            + text::decimal_text(pid->0 as nat)
            + " is writing to this repository with a version of ddup-bak from before archive format 2. Stop it before opening the repository with this version, or it will save its own index over the migrated one"@,
{
    match pid {
        None => Ok(()),
        Some(pid) => {
            let number = text::decimal(pid as u64);
            Err(
                Error::new(
                    ErrorKind::WouldBlock,
                    text::join3(
                        "process ",
                        number.as_str(),
                        " is writing to this repository with a version of ddup-bak from before archive format 2. Stop it before opening the repository with this version, or it will save its own index over the migrated one",
                    ),
                ),
            )
        },
    }
}

/// The chunk ids for a migration, read from the index while it is locked. With `salvage`, a
/// damaged index is read as far as it decodes.
pub fn migration_ids(salvage: bool, bytes: &[u8]) -> (ids: Result<
    Option<HashMap<u64, ChunkHash>>,
    Error,
>)
    ensures
        ids_model(ids) == ids_to_migrate(salvage, bytes@),
{
    match ChunkIndex::load_header(bytes) {
        Ok(header) => {
            if header.version != 1 {
                return Ok(None);
            }
        },
        Err(err) => {
            return Err(err);
        },
    }
    let loaded = if salvage {
        ChunkIndex::salvage_v1(bytes)
    } else {
        ChunkIndex::load_v1(bytes)
    };
    match loaded {
        Ok((_, ids)) => Ok(Some(ids)),
        Err(err) => Err(err),
    }
}

/// The chunk ids for the archives that an earlier migration skipped. `None` when the old index is
/// damaged, so that nothing can be done now.
pub fn legacy_ids(bytes: &[u8]) -> (ids: Result<Option<HashMap<u64, ChunkHash>>, Error>)
    ensures
        match index::loaded_v1(bytes@) {
            Ok((_, ids_spec)) => ids is Ok && ids->Ok_0 is Some && ids->Ok_0->0@ == ids_spec,
            Err(err) => if error::damage_kind(err.kind) {
                ids is Ok && ids->Ok_0 is None
            } else {
                ids is Err && ids->Err_0@ == err
            },
        },
{
    match ChunkIndex::load_v1(bytes) {
        Ok((_, ids)) => Ok(Some(ids)),
        Err(err) => if is_damage(&err) {
            Ok(None)
        } else {
            Err(err)
        },
    }
}

/// Migrates an archive that was opened. A damaged one is skipped; what says nothing about the
/// archive is passed on.
pub fn migrate_archive(
    opened: &Result<OpenArchive, Error>,
    ids: &HashMap<u64, ChunkHash>,
) -> (migration: Result<Migration, Error>)
    ensures
        match volume_of(*opened, ids@) {
            Volume::Current => migration is Ok && migration->Ok_0 is Keep,
            Volume::Old => migration is Ok && migration->Ok_0 is Rewrite,
            Volume::Damaged => migration is Ok && migration->Ok_0 is Skip,
            Volume::Blocked => migration is Err,
        },
        match migration_error(*opened, ids@) {
            Some(err) => if error::damage_kind(err.kind) {
                migration is Ok && migration->Ok_0 is Skip
            } else {
                migration is Err && migration->Err_0@ == err
            },
            None => {
                &&& migration is Ok
                &&& opened->Ok_0.version != 1 ==> migration->Ok_0 is Keep
                &&& opened->Ok_0.version == 1 ==> migration->Ok_0 is Rewrite
                    && migrate::all_migrated(
                    opened->Ok_0.entries@,
                    migration->Ok_0->Rewrite_0@,
                    ids@,
                )
            },
        },
{
    let result = match opened {
        Ok(archive) => {
            if archive.version != 1 {
                return Ok(Migration::Keep);
            }
            migrate_v1_entries(&archive.entries, ids)
        },
        Err(err) => Err(err.duplicate()),
    };
    match result {
        Ok(entries) => Ok(Migration::Rewrite(entries)),
        Err(err) => if is_damage(&err) {
            Ok(Migration::Skip)
        } else {
            Err(err)
        },
    }
}

/// Whether an archive remains to be migrated after an attempt to write it again.
pub fn remains(written: Result<(), Error>) -> (remaining: Result<bool, Error>)
    ensures
        match written {
            Ok(()) => remaining is Ok && !remaining->Ok_0,
            Err(err) => if error::damage_kind(err.kind) {
                remaining is Ok && remaining->Ok_0
            } else {
                remaining is Err && remaining->Err_0 == err
            },
        },
        written is Err ==> (remaining is Ok <==> written->Err_0.kind is InvalidData
            || written->Err_0.kind is InvalidInput || written->Err_0.kind is UnexpectedEof),
{
    match written {
        Ok(()) => Ok(false),
        Err(err) => if is_damage(&err) {
            Ok(true)
        } else {
            Err(err)
        },
    }
}

/// Decides what follows the migration of the archives. `remaining` says whether any was skipped.
pub fn after_migration(salvage: bool, remaining: bool) -> (next: AfterMigration)
    ensures
        next == if salvage {
            AfterMigration::Nothing
        } else if remaining {
            AfterMigration::KeepIdsAndRecount
        } else {
            AfterMigration::Recount
        },
{
    if salvage {
        AfterMigration::Nothing
    } else if remaining {
        AfterMigration::KeepIdsAndRecount
    } else {
        AfterMigration::Recount
    }
}

/// The ids that a migration resolves are those of the whole index, or, of a damaged one that is
/// rebuilt, those that still can be read. An index in a newer format has none to resolve.
pub proof fn ids_of_the_old_index(salvage: bool, bytes: Seq<u8>)
    ensures
        match header::opened(bytes) {
            Err(err) => ids_to_migrate(salvage, bytes) == Err::<Option<Map<u64, ChunkHash>>, _>(
                err,
            ),
            Ok(open) => if open.header.version != 1 {
                ids_to_migrate(salvage, bytes) == Ok::<_, error::ErrorModel>(
                    None::<Map<u64, ChunkHash>>,
                )
            } else if salvage {
                index::salvaged_v1(bytes) is Ok ==> ids_to_migrate(salvage, bytes) == Ok::<
                    _,
                    error::ErrorModel,
                >(Some(index::salvaged_v1(bytes)->Ok_0.1))
            } else {
                match index::loaded_v1(bytes) {
                    Ok((_, ids)) => ids_to_migrate(salvage, bytes) == Ok::<_, error::ErrorModel>(
                        Some(ids),
                    ),
                    Err(err) => ids_to_migrate(salvage, bytes) == Err::<
                        Option<Map<u64, ChunkHash>>,
                        _,
                    >(err),
                }
            },
        },
{
}

/// What a migration meets: an archive in another format stays; one in format 1 is migrated if every
/// list of ids in it resolves; corrupt data makes it damaged; any other error is in the way.
pub proof fn archives_as_a_migration_meets_them(
    opened: Result<OpenArchive, Error>,
    ids: Map<u64, ChunkHash>,
)
    ensures
        ({
            let read = match opened {
                Ok(archive) => if archive.version == 1 {
                    migrate::tree_hashes_v1(archive.entries@, ids)
                } else {
                    Ok(Seq::empty())
                },
                Err(err) => Err(err@),
            };
            match read {
                Ok(_) => {
                    &&& migration_error(opened, ids) is None
                    &&& opened->Ok_0.version == 1 ==> volume_of(opened, ids) is Old
                    &&& opened->Ok_0.version != 1 ==> volume_of(opened, ids) is Current
                },
                Err(err) => {
                    &&& migration_error(opened, ids) == Some(err)
                    &&& if err.kind is InvalidData || err.kind is InvalidInput || err.kind
                        is UnexpectedEof {
                        volume_of(opened, ids) is Damaged
                    } else {
                        volume_of(opened, ids) is Blocked
                    }
                },
            }
        }),
{
}

/// There is no index that can be read if it is missing or corrupt, and not if reading it failed for
/// another reason.
pub proof fn missing_or_corrupt(kind: ErrorKind)
    ensures
        no_index(kind) <==> kind is NotFound || kind is InvalidData || kind is InvalidInput || kind
            is UnexpectedEof,
{
}

/// Ids, or an error, by value.
pub proof fn ids_by_value(ids: HashMap<u64, ChunkHash>, err: Error)
    ensures
        ids_model(Ok(Some(ids))) == Ok::<_, error::ErrorModel>(Some(ids@)),
        ids_model(Ok(None)) == Ok::<_, error::ErrorModel>(None::<Map<u64, ChunkHash>>),
        ids_model(Err(err)) == Err::<Option<Map<u64, ChunkHash>>, _>(err@),
{
}

} // verus!
