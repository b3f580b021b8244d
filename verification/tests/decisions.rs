//! The decisions of a repository, on given values.
use ddup_bak::chunks::chunk::encode_chunk;
use ddup_bak::chunks::codec::CompressionFormat;
use ddup_bak::chunks::{ChunkHash, ChunkIndex, HashAlgorithm, IndexHeader};
use ddup_bak::entries::{DirectoryEntry, Entry, FileEntry, SymlinkEntry, Timestamp};
use ddup_bak::error::{Error, ErrorKind};
use ddup_bak::repository::backup::{
    changed_while_read, claim_name, compression_of, directory_entry, file_entry, hash_pieces,
    link_target, must_write, skips_walk_error, store, symlink_entry, visit, Found, Gathering,
    Metadata, Placed, Streamed, Visit, WalkItem,
};
use ddup_bak::repository::deletion::{
    delete_decision, find_deletion, settle_decision, settle_pending, DeleteDecision,
    MarkerReading, Settling,
};
use ddup_bak::repository::inflight::Inflight;
use ddup_bak::repository::markers::{pending_markers, removal_order};
use ddup_bak::repository::names::{
    destination_lock, is_leftover, is_repository_internal, marker_candidate, migrate_file,
    partial_file, pending_name, validate_name,
};
use ddup_bak::repository::opening::{
    after_migration, legacy_ids, legacy_writer, migrate_archive, migrates_first, migration_ids,
    open_step, rebuild_algorithm, refuse_writer, remains, AfterMigration, Migration, OpenStep,
};
use ddup_bak::repository::plan::{
    closing_steps, delete_steps, drop_steps, finish_steps, migration_steps, publish_steps,
    rebuild_steps, recount_steps, rewrite_steps, settle_steps, sweep_steps, tidy_steps, Step,
};
use ddup_bak::repository::restore::{
    check_destination, check_restored, file_content, read_window, removable_mode, restore_steps,
    tolerate, RestoreStep,
};
use ddup_bak::repository::survey::{
    collect_live, countable_archives, refuse_deletion, survey, OpenArchive, Readability, Survey,
};
use ddup_bak::repository::Repository;
use ddup_bak::tree::{add_entry, assemble, Group};
use std::collections::HashMap;

const EPOCH: Timestamp = Timestamp { seconds: 0, nanos: 0 };
const PLAIN: Metadata = Metadata { mode: 0o755, owner: (1, 2), mtime: EPOCH };
const A: ChunkHash = [1; 32];
const B: ChunkHash = [2; 32];
const C: ChunkHash = [3; 32];

fn fail(kind: ErrorKind) -> Error {
    Error::new(kind, "no luck".to_string())
}

fn parts(path: &str) -> Vec<Option<String>> {
    path.split('/').filter(|part| !part.is_empty()).map(|part| Some(part.to_string())).collect()
}

fn texts(list: &[&str]) -> Vec<String> {
    list.iter().map(|text| text.to_string()).collect()
}

fn file(name: &str, size_real: u64, body: Result<Vec<u8>, Error>) -> Entry {
    let file = FileEntry {
        name: name.to_string(),
        mode: 0o640,
        owner: (3, 4),
        mtime: EPOCH,
        size_real,
        body,
    };
    Entry::File(Box::new(file))
}

fn directory(name: &str, entries: Vec<Entry>) -> Entry {
    let dir = DirectoryEntry {
        name: name.to_string(),
        mode: 0o750,
        owner: (5, 6),
        mtime: EPOCH,
        entries,
    };
    Entry::Directory(Box::new(dir))
}

fn header(version: u8, hash_algorithm: HashAlgorithm) -> IndexHeader {
    IndexHeader { version, chunk_size: 2048, max_chunk_count: 5, hash_algorithm }
}

fn surveyed(name: &str, readability: Readability, hashes: &[ChunkHash]) -> Survey {
    Survey { name: name.to_string(), readability, hashes: hashes.to_vec() }
}

fn told<T>(result: Result<T, Error>) -> (ErrorKind, String) {
    match result {
        Ok(_) => panic!("no error"),
        Err(err) => (err.kind, err.message),
    }
}

fn saying<T>(kind: ErrorKind, message: &str, result: Result<T, Error>) {
    assert_eq!(told(result), (kind, message.to_string()));
}

/// The names in a tree, with those in a directory behind its own.
fn names(entries: &[Entry]) -> Vec<String> {
    let mut names = Vec::new();
    for entry in entries {
        match entry {
            Entry::File(file) => names.push(file.name.clone()),
            Entry::Symlink(link) => names.push(format!("{}@", link.name)),
            Entry::Directory(dir) => {
                names.push(format!("{}/", dir.name));
                names.extend(self::names(&dir.entries).iter().map(|name| format!("  {name}")));
            }
        }
    }
    names
}

#[test]
fn names_stay_where_they_are_put() {
    for name in ["a", "...", "a.b", "文", "a\\b", " "] {
        assert!(validate_name(name).is_ok());
    }
    assert!(validate_name(&"n".repeat(255)).is_ok());
    for name in ["", ".", "..", "a/b", "/", "a\0"] {
        saying(ErrorKind::InvalidInput, &format!("invalid name: {name}"), validate_name(name));
    }
    assert!(validate_name(&"n".repeat(256)).is_err());
    assert!(validate_name(&"文".repeat(86)).is_err());
    assert_eq!(Repository::archive_path("a").unwrap(), ".ddup-bak/archives/a.ddup");
    assert_eq!(Repository::restored_path("a").unwrap(), ".ddup-bak/archives-restored/a");
    assert_eq!(told(Repository::archive_path("..")).0, ErrorKind::InvalidInput);
}

#[test]
fn hidden_files_are_named_by_a_hash() {
    assert_eq!(partial_file("abc"), ".partial-6437b3ac38465133");
    assert_eq!(migrate_file("abc"), ".migrate-6437b3ac38465133");
    assert_eq!(destination_lock(b"abc"), "destination-6437b3ac38465133");
    for file in [partial_file("a"), migrate_file("a")] {
        assert!(is_leftover(&file));
        assert!(Repository::list_archives(&vec![Some(file)]).is_empty());
    }
    assert!(!is_leftover("a.ddup") && !is_leftover(".parti"));
}

#[test]
fn archives_are_listed_by_their_ending() {
    let files = vec![
        Some("a.ddup".to_string()),
        None,
        Some("b".to_string()),
        Some(".ddup".to_string()),
        Some("c.ddup.ddup".to_string()),
    ];
    assert_eq!(Repository::list_archives(&files), ["a", "", "c.ddup"]);
}

#[test]
fn own_directories_are_recognised_anywhere_in_a_path() {
    assert!(is_repository_internal(&parts(".ddup-bak/chunks")));
    assert!(is_repository_internal(&parts("a/.ddup-bak-restore/b")));
    assert!(!is_repository_internal(&parts(".ddup-bakup/a")));
    assert!(!is_repository_internal(&vec![None]));
    assert!(skips_walk_error(&Some(parts(".ddup-bak"))));
    assert!(!skips_walk_error(&Some(parts("a"))));
    assert!(!skips_walk_error(&None));
}

#[test]
fn markers_carry_their_archive_name() {
    assert_eq!(pending_name("a.ddup").as_deref(), Some("a"));
    assert_eq!(pending_name("a.ddup.12").as_deref(), Some("a"));
    assert_eq!(pending_name(".ddup.1").as_deref(), Some(""));
    assert_eq!(pending_name("a.ddup.1.ddup.2").as_deref(), Some("a.ddup.1"));
    for file in ["a", "a.ddup.", "a.ddup.x", "a.ddup.1x", "12", ""] {
        assert_eq!(pending_name(file), None);
    }
    assert_eq!(marker_candidate("a", 0), "a.ddup");
    assert_eq!(marker_candidate("a", 7), "a.ddup.7");
    let longest = "n".repeat(250);
    assert_eq!(marker_candidate(&longest, 0), format!("{longest}.ddup"));
    assert_eq!(marker_candidate(&longest, 1), ".ddup.1");
    let fits = "n".repeat(248);
    assert_eq!(marker_candidate(&fits, 1), format!("{fits}.ddup.1"));
    assert_eq!(marker_candidate(&fits, 10), ".ddup.10");
    for n in 0..20 {
        assert_eq!(pending_name(&marker_candidate("a", n)).as_deref(), Some("a"));
        assert_ne!(marker_candidate("a", n), marker_candidate("a", n + 1));
    }
}

#[test]
fn pending_deletions_are_sorted_and_told_once() {
    let markers = texts(&["b.ddup", ".ddup.1", "a.ddup.2", "b.ddup.1", "a.ddup", "aa.ddup"]);
    assert_eq!(Repository::pending_deletions(&markers), ["a", "aa", "b"]);
    let files = vec![Some("a.ddup".to_string()), None, Some("junk".to_string())];
    assert_eq!(pending_markers(&files), ["a.ddup"]);
    // Nameless markers go first, the others stay in order.
    assert_eq!(
        removal_order(&markers),
        [".ddup.1", "b.ddup", "a.ddup.2", "b.ddup.1", "a.ddup", "aa.ddup"]
    );
}

#[test]
fn archives_of_other_versions_are_refused() {
    let open = |version| Ok(OpenArchive { version, entries: vec![file("f", 0, Ok(Vec::new()))] });
    assert_eq!(names(&Repository::get_archive("a", open(2), "i").unwrap()), ["f"]);
    saying(
        ErrorKind::Unsupported,
        "archive a is in format version 1, this build reads version 2: it is migrated when the \
         repository is opened, which needs i. Restore that file and open the repository again; \
         the chunk ids in a format 1 archive cannot be resolved without it",
        Repository::get_archive("a", open(1), "i"),
    );
    saying(
        ErrorKind::Unsupported,
        "archive a is in format version 3, this build reads version 2: it was written by a newer \
         version of ddup-bak",
        Repository::get_archive("a", open(3), "i"),
    );
    assert_eq!(
        told(Repository::get_archive("a", Err(fail(ErrorKind::NotFound)), "i")).0,
        ErrorKind::NotFound
    );
}

#[test]
fn archives_are_surveyed() {
    let whole = survey("a", Ok(vec![file("f", 1, Ok([A, B].concat()))])).unwrap();
    assert_eq!((whole.readability, whole.hashes), (Readability::Whole, vec![A, B]));
    for kind in [ErrorKind::InvalidData, ErrorKind::UnexpectedEof, ErrorKind::Unsupported] {
        let damaged = survey("a", Err(fail(kind))).unwrap();
        assert_eq!(damaged.readability, Readability::Damaged);
    }
    let inside = |kind| survey("a", Ok(vec![file("f", 1, Err(fail(kind)))]));
    assert_eq!(inside(ErrorKind::Other).unwrap().readability, Readability::Damaged);
    assert_eq!(inside(ErrorKind::Unsupported).unwrap().readability, Readability::Unsupported);
    assert_eq!(told(inside(ErrorKind::PermissionDenied)).0, ErrorKind::PermissionDenied);
    assert_eq!(told(survey("a", Err(fail(ErrorKind::NotFound)))).0, ErrorKind::NotFound);
}

#[test]
fn unreadable_archives_block_deletion() {
    let surveys = vec![
        surveyed("a", Readability::Whole, &[A, B]),
        surveyed("b", Readability::Damaged, &[]),
        surveyed("c", Readability::Whole, &[A]),
        surveyed("d", Readability::Damaged, &[]),
    ];
    let unreadable = Repository::unreadable_archives(&surveys);
    assert_eq!(unreadable, ["b", "d"]);
    assert!(refuse_deletion(&Vec::new()).is_ok());
    saying(
        ErrorKind::Unsupported,
        "cannot delete chunks while b, d cannot be read: the chunks they hold are unaccounted for \
         and would be taken as unreferenced. Open one of them to see what is wrong, or delete its \
         file to give up on it",
        refuse_deletion(&unreadable),
    );
    assert_eq!(countable_archives(&surveys).unwrap(), ["a", "c"]);
    assert_eq!(collect_live(&surveys), [A, B, A]);
    let unsupported = vec![surveyed("z", Readability::Unsupported, &[])];
    saying(
        ErrorKind::Unsupported,
        "archive z uses a compression this build was made without, so its chunks cannot be \
         counted; use a build that has it",
        countable_archives(&unsupported),
    );
}

#[test]
fn a_deletion_needs_an_archive_or_a_marker() {
    let whole = vec![surveyed("a", Readability::Whole, &[A])];
    let damaged = vec![surveyed("a", Readability::Damaged, &[])];
    let decide = |name, live, markers: &[&str], surveys| {
        delete_decision(name, live, &texts(markers), surveys)
    };
    assert_eq!(decide("a", true, &[], &whole).unwrap(), DeleteDecision::Release);
    assert_eq!(decide("b", false, &["b.ddup.3"], &whole).unwrap(), DeleteDecision::Release);
    assert_eq!(decide("a", true, &[], &damaged).unwrap(), DeleteDecision::DropAndRecount);
    saying(ErrorKind::NotFound, "archive b does not exist", decide("b", false, &["c.ddup"], &whole));
    assert_eq!(told(decide("b", false, &["b.ddup"], &damaged)).0, ErrorKind::Unsupported);
    assert_eq!(told(decide("b", true, &[], &damaged)).0, ErrorKind::Unsupported);
    assert!(find_deletion("a", true, &Vec::new()).is_ok());
    assert!(find_deletion("b", false, &texts(&["b.ddup"])).is_ok());
    saying(
        ErrorKind::NotFound,
        "archive b does not exist",
        find_deletion("b", false, &texts(&["c.ddup"])),
    );
}

#[test]
fn markers_are_settled_or_recounted() {
    let marker = |path: &str, opened| MarkerReading { path: path.to_string(), opened };
    let readable = || marker("a", Ok(vec![file("f", 1, Ok([A, B].concat()))]));
    let settle = |last| settle_decision(&vec![readable(), last]);
    let both = settle(marker("b", Ok(vec![file("f", 1, Ok(A.to_vec()))]))).unwrap();
    assert!(matches!(both, Settling::Chunks(hashes) if hashes == [A, B, A]));
    for kind in [ErrorKind::InvalidData, ErrorKind::Unsupported] {
        assert!(matches!(settle(marker("b", Err(fail(kind)))).unwrap(), Settling::Recount));
        let inside = marker("b", Ok(vec![file("f", 1, Err(fail(kind)))]));
        assert!(matches!(settle(inside).unwrap(), Settling::Recount));
    }
    saying(
        ErrorKind::PermissionDenied,
        "b: no luck",
        settle(marker("b", Err(fail(ErrorKind::PermissionDenied)))),
    );
}

#[test]
fn deletions_free_chunks_before_the_index_is_saved() {
    let mut index = ChunkIndex::new(4096, 0, HashAlgorithm::Blake3);
    for (hash, count) in [(A, 2), (B, 1), (C, 1)] {
        index.set(&hash, count);
    }
    // `C` belonged to an interrupted deletion, `A` and `B` to the archive, `A` to another one too.
    let live = vec![A, B, A];
    let gone = Some((vec![A, B], "a.ddup".to_string()));
    let plan =
        Repository::delete_archive(&mut index, &Some(vec![C]), &live, gone, texts(&["old.ddup"]));
    assert_eq!(plan.unused, [C]);
    assert_eq!(plan.deletions, [(A, false), (B, true)]);
    assert_eq!(index.iter(), [(A, 1)]);
    let order: Vec<&str> = plan
        .steps
        .iter()
        .map(|step| match step {
            Step::SyncArchiveDirs => "sync",
            Step::DeleteChunk(hash) if *hash == C => "settle",
            Step::MakeDeletingDir => "make",
            Step::MoveToDeleting(marker) if marker == "a.ddup" => "move",
            Step::ReleaseChunk(hash, false) if *hash == A => "keep",
            Step::ReleaseChunk(hash, true) if *hash == B => "delete",
            Step::SaveIndex => "save",
            Step::RemoveMarker(marker) if marker == "old.ddup" => "remove old",
            Step::RemoveMarker(marker) if marker == "a.ddup" => "remove",
            _ => "other",
        })
        .collect();
    assert_eq!(
        order,
        ["sync", "settle", "make", "move", "sync", "keep", "delete", "save", "remove old", "remove"]
    );
}

#[test]
fn cleaning_sweeps_what_nothing_refers_to() {
    let mut index = ChunkIndex::new(4096, 0, HashAlgorithm::Blake3);
    index.set(&A, 0);
    index.set(&B, 3);
    let (unused, steps) = settle_pending(&mut index, &None, &vec![B]);
    assert!(unused.is_empty() && steps.is_empty());
    let (mut swept, steps) = Repository::clean(&mut index, &vec![A, B, C], &texts(&["m.ddup"]));
    swept.sort();
    assert_eq!(swept, [A, C]);
    assert_eq!(index.iter(), [(B, 3)]);
    assert_eq!(steps.len(), 4);
    assert!(matches!(steps[0], Step::SweepChunk(_)) && matches!(steps[1], Step::SweepChunk(_)));
    assert!(matches!(steps[2], Step::SaveIndex));
    assert!(matches!(&steps[3], Step::RemoveMarker(marker) if marker == "m.ddup"));
}

#[test]
fn plans_keep_their_order() {
    let steps = publish_steps();
    assert_eq!(steps.len(), 6);
    assert!(matches!(steps[0], Step::SyncStorage));
    assert!(matches!(steps[1], Step::SaveIndex));
    assert!(matches!(steps[2], Step::WriteFooter));
    assert!(matches!(steps[3], Step::SyncArchive));
    assert!(matches!(steps[4], Step::PublishArchive));
    assert!(matches!(steps[5], Step::SyncArchivesDir));
    let steps = closing_steps(&texts(&["a.ddup", ".ddup.1"]));
    assert!(matches!(steps[0], Step::SaveIndex));
    assert!(matches!(&steps[1], Step::RemoveMarker(marker) if marker == ".ddup.1"));
    assert!(matches!(&steps[2], Step::RemoveMarker(marker) if marker == "a.ddup"));
    let steps = rebuild_steps(&texts(&["a.ddup", ".ddup.1"]));
    assert!(matches!(steps[0], Step::SyncArchiveDirs));
    assert!(matches!(steps[1], Step::SaveIndex));
    assert!(matches!(&steps[2], Step::RemoveMarker(marker) if marker == "a.ddup"));
    let steps = recount_steps(&texts(&["a.ddup"]));
    assert!(matches!(steps[0], Step::SyncArchiveDirs));
    assert!(matches!(steps[1], Step::SaveIndex));
    assert!(matches!(&steps[2], Step::RemoveMarker(marker) if marker == "a.ddup"));
    let steps = drop_steps();
    assert!(matches!(steps[0], Step::RemoveArchive));
    assert!(matches!(steps[1], Step::SyncArchiveDirs));
    let steps = tidy_steps();
    assert!(matches!(steps[0], Step::RemoveLeftovers));
    assert!(matches!(steps[1], Step::RemovePartialArchives));
    assert_eq!(settle_steps(&vec![A, B]).len(), 3);
    assert_eq!(sweep_steps(&vec![A, B]).len(), 2);
    assert_eq!(delete_steps("m".to_string(), &vec![(A, true)]).len(), 4);
}

#[test]
fn migrations_keep_the_ids_before_the_index_is_replaced() {
    let steps = rewrite_steps();
    assert_eq!(steps.len(), 3);
    assert!(matches!(steps[0], Step::WriteFooter));
    assert!(matches!(steps[1], Step::SyncArchive));
    assert!(matches!(steps[2], Step::PublishArchive));
    let steps = migration_steps(AfterMigration::KeepIdsAndRecount);
    assert_eq!(steps.len(), 3);
    assert!(matches!(steps[0], Step::SyncArchivesDir));
    assert!(matches!(steps[1], Step::KeepIds));
    assert!(matches!(steps[2], Step::SaveIndex));
    let steps = migration_steps(AfterMigration::Recount);
    assert_eq!(steps.len(), 2);
    assert!(matches!(steps[1], Step::SaveIndex));
    assert_eq!(migration_steps(AfterMigration::Nothing).len(), 1);
    assert_eq!(finish_steps(true, &texts(&["a.ddup"])).len(), 1);
    let steps = finish_steps(false, &texts(&["a.ddup"]));
    assert_eq!(steps.len(), 5);
    assert!(matches!(steps[0], Step::SyncArchivesDir));
    assert!(matches!(steps[2], Step::SaveIndex));
    assert!(matches!(steps[4], Step::RemoveIds));
}

#[test]
fn opening_decides_on_migration() {
    let blake3 = HashAlgorithm::Blake3;
    assert_eq!(open_step(header(1, blake3), true), OpenStep::Migrate);
    assert_eq!(open_step(header(4, blake3), true), OpenStep::FinishMigration);
    assert_eq!(open_step(header(4, blake3), false), OpenStep::Nothing);
    assert!(migrates_first(Ok(header(1, blake3))).unwrap());
    assert!(!migrates_first(Ok(header(3, blake3))).unwrap());
    for kind in [ErrorKind::NotFound, ErrorKind::InvalidData] {
        assert!(!migrates_first(Err(fail(kind))).unwrap());
        assert_eq!(
            rebuild_algorithm(None, Err(fail(kind))).unwrap(),
            HashAlgorithm::Blake2b256
        );
    }
    let denied = || Err(fail(ErrorKind::PermissionDenied));
    assert_eq!(told(migrates_first(denied())).0, ErrorKind::PermissionDenied);
    assert_eq!(told(rebuild_algorithm(None, denied())).0, ErrorKind::PermissionDenied);
    assert_eq!(rebuild_algorithm(Some(blake3), denied()).unwrap(), blake3);
    assert_eq!(rebuild_algorithm(None, Ok(header(4, blake3))).unwrap(), blake3);
    assert_eq!(after_migration(true, true), AfterMigration::Nothing);
    assert_eq!(after_migration(false, true), AfterMigration::KeepIdsAndRecount);
    assert_eq!(after_migration(false, false), AfterMigration::Recount);
    assert!(!remains(Ok(())).unwrap());
    assert!(remains(Err(fail(ErrorKind::InvalidData))).unwrap());
    assert_eq!(told(remains(Err(fail(ErrorKind::Other)))).0, ErrorKind::Other);
}

#[test]
fn an_old_lock_names_its_writer() {
    let state = |flag: u8, pid: u64| {
        let mut state = vec![0; 24];
        state[8] = flag;
        state[16..].copy_from_slice(&pid.to_le_bytes());
        state
    };
    assert_eq!(legacy_writer(&state(1, 77)), Some(77));
    assert_eq!(legacy_writer(&state(0, 77)), None);
    assert_eq!(legacy_writer(&state(1, 0)), None);
    assert_eq!(legacy_writer(&state(1, 1 << 32)), None);
    assert_eq!(legacy_writer(&state(1, 77)[..23]), None);
    assert!(refuse_writer(None).is_ok());
    saying(
        ErrorKind::WouldBlock,
        "process 77 is writing to this repository with a version of ddup-bak from before archive \
         format 2. Stop it before opening the repository with this version, or it will save its \
         own index over the migrated one",
        refuse_writer(Some(77)),
    );
}

#[test]
fn archives_migrate_unless_they_are_damaged() {
    let ids = HashMap::from([(1, A)]);
    let open = |version, body| Ok(OpenArchive { version, entries: vec![file("f", 1, Ok(body))] });
    assert!(matches!(migrate_archive(&open(2, vec![9]), &ids).unwrap(), Migration::Keep));
    assert!(matches!(migrate_archive(&open(1, vec![9]), &ids).unwrap(), Migration::Skip));
    let broken = Err(fail(ErrorKind::UnexpectedEof));
    assert!(matches!(migrate_archive(&broken, &ids).unwrap(), Migration::Skip));
    let denied = Err(fail(ErrorKind::PermissionDenied));
    assert_eq!(told(migrate_archive(&denied, &ids)).0, ErrorKind::PermissionDenied);
    match migrate_archive(&open(1, vec![1, 1]), &ids).unwrap() {
        Migration::Rewrite(entries) => {
            assert_eq!(file_content(&entries[0]).unwrap(), (vec![A, A], 1));
        }
        other => panic!("{other:?}"),
    }

    let saved = ChunkIndex::new(4096, 0, HashAlgorithm::Blake3).save();
    assert!(migration_ids(false, &saved).unwrap().is_none());
    assert_eq!(told(migration_ids(true, b"")).0, ErrorKind::UnexpectedEof);
    assert!(legacy_ids(b"").unwrap().is_none());
}

#[test]
fn repositories_keep_their_settings() {
    let repository = Repository::new(100, 3);
    assert_eq!((repository.chunk_size, repository.max_chunk_count), (100, 3));
    assert_eq!(repository.hash_algorithm(), HashAlgorithm::Blake2b256);
    let mut opened = Repository::open(header(4, HashAlgorithm::Blake3));
    assert_eq!((opened.chunk_size, opened.max_chunk_count), (2048, 5));
    assert_eq!(opened.set_save_on_drop(true).hash_algorithm(), HashAlgorithm::Blake3);
    assert!(opened.save().is_ok());
    assert_eq!(opened.new_index().chunk_size, 2048);
    let recounted = repository.recounted_index(&header(4, HashAlgorithm::Blake3));
    assert_eq!((recounted.chunk_size, recounted.max_chunk_count), (2048, 5));
    assert_eq!(recounted.algorithm(), HashAlgorithm::Blake2b256);
    let sizes = repository.cut_sizes(10);
    assert_eq!((sizes.min, sizes.avg, sizes.max), (64, 256, 1024));

    let index = || Ok(repository.new_index().save());
    assert!(Repository::open_or_rebuild(Ok(repository), index()).is_some());
    assert!(Repository::open_or_rebuild(Err(fail(ErrorKind::NotFound)), index()).is_none());
    assert!(Repository::open_or_rebuild(Ok(repository), Ok(Vec::new())).is_none());
    assert!(
        Repository::open_or_rebuild(Ok(repository), Err(fail(ErrorKind::NotFound))).is_none()
    );
}

#[test]
fn a_name_is_claimed_only_where_nothing_is() {
    assert!(claim_name("a", Err(fail(ErrorKind::NotFound))).is_ok());
    saying(ErrorKind::AlreadyExists, "archive a already exists", claim_name("a", Ok(())));
    assert_eq!(told(claim_name("a", Err(fail(ErrorKind::Other)))).0, ErrorKind::Other);
}

#[test]
fn a_walk_takes_what_an_archive_can_hold() {
    let go = |parts| {
        visit(&WalkItem { shown: "r/x".to_string(), parts }, "r", 3)
    };
    assert!(matches!(go(Some(parts(""))).unwrap(), Visit::Skip));
    assert!(matches!(go(Some(parts("a/.."))).unwrap(), Visit::Skip));
    assert!(matches!(go(Some(parts("a/.ddup-bak/x"))).unwrap(), Visit::Skip));
    match go(Some(parts("a/b/c"))).unwrap() {
        Visit::Take(name, parent) => assert_eq!((name, parent), ("c".to_string(), parts("a/b"))),
        Visit::Skip => panic!("skipped"),
    }
    saying(
        ErrorKind::InvalidData,
        "r/x is nested deeper than the 3 levels an archive can hold",
        go(Some(parts("a/b/c/d"))),
    );
    saying(ErrorKind::InvalidData, "r/x is outside r", go(None));
    saying(ErrorKind::InvalidData, "r/x is not a valid UTF-8 file name", go(Some(vec![None])));
}

#[test]
fn entries_are_gathered_and_nested() {
    let mut gathering = Gathering::new();
    let mut place = |path: &str, found| {
        let mut parent = parts(path);
        let name = parent.pop().unwrap().unwrap();
        gathering.place(path, name, parent, found)
    };
    // What is in a directory may come before it.
    assert!(matches!(place("d/e/l", Found::Symlink(PLAIN, Some("t".to_string()), false)).unwrap(), Placed::Added));
    assert!(matches!(place("d", Found::Directory(PLAIN)).unwrap(), Placed::Added));
    assert!(matches!(place("d/e", Found::Directory(PLAIN)).unwrap(), Placed::Added));
    assert!(matches!(place("pipe", Found::Other).unwrap(), Placed::Skipped));
    match place("d/f", Found::File).unwrap() {
        Placed::File(name, parent) => {
            assert_eq!((name.as_str(), &parent), ("f", &parts("d")));
            gathering.add(parent, file_entry(name, PLAIN, 0, &Vec::new()));
        }
        other => panic!("{other:?}"),
    }
    let odd = gathering.place("d/o", "o".to_string(), parts("d"), Found::Symlink(PLAIN, None, false));
    saying(ErrorKind::InvalidData, "d/o has a non-UTF-8 target", odd);
    assert!(!gathering.failed());
    let entries = gathering.finish().unwrap();
    assert_eq!(names(&entries), ["d/", "  e/", "    l@", "  f"]);

    let mut gathering = Gathering::new();
    gathering.record(Err(fail(ErrorKind::Other)));
    gathering.record(Err(fail(ErrorKind::NotFound)));
    assert!(gathering.failed());
    assert_eq!(told(gathering.finish()).0, ErrorKind::Other);
}

#[test]
fn assembling_takes_each_group_once() {
    let mut groups: Vec<Group> = Vec::new();
    add_entry(&mut groups, parts(""), directory("d", Vec::new()));
    add_entry(&mut groups, parts("d"), file("f", 0, Ok(Vec::new())));
    add_entry(&mut groups, parts("d"), file("g", 0, Ok(Vec::new())));
    add_entry(&mut groups, parts("lost"), file("h", 0, Ok(Vec::new())));
    assert_eq!(groups.len(), 3);
    assert_eq!(names(&assemble(&parts(""), &mut groups)), ["d/", "  f", "  g"]);
    assert_eq!(groups.len(), 1);
}

#[test]
fn entries_hold_what_was_found() {
    match file_entry("f".to_string(), PLAIN, 9, &vec![A, B]) {
        Entry::File(file) => {
            assert_eq!((file.name.as_str(), file.mode, file.size_real), ("f", 0o755, 9));
            assert_eq!(file.body.unwrap(), [A, B].concat());
        }
        other => panic!("{other:?}"),
    }
    match directory_entry("d".to_string(), PLAIN) {
        Entry::Directory(dir) => assert_eq!((dir.owner, dir.entries.len()), ((1, 2), 0)),
        other => panic!("{other:?}"),
    }
    match symlink_entry("l".to_string(), PLAIN, "t".to_string(), true) {
        Entry::Symlink(link) => assert_eq!((link.target.as_str(), link.target_dir), ("t", true)),
        other => panic!("{other:?}"),
    }
    assert_eq!(link_target("l", Some("t".to_string())).unwrap(), "t");
    saying(ErrorKind::InvalidData, "l has a non-UTF-8 target", link_target("l", None));
    let changed = changed_while_read("f");
    assert_eq!((changed.kind, changed.message.as_str()), (ErrorKind::Other, "f changed while being read"));
}

#[test]
fn chunks_are_written_unless_they_are_there() {
    let mut index = ChunkIndex::new(4096, 0, HashAlgorithm::Blake3);
    let hash = HashAlgorithm::Blake3.hash(b"x");
    assert_eq!(store(&mut index, b"x"), (hash, false));
    assert_eq!(store(&mut index, b"x"), (hash, true));
    assert_eq!(index.references(&hash), 2);
    assert!(must_write(false, false) && must_write(false, true) && must_write(true, false));
    assert!(!must_write(true, true));
    assert_eq!(
        hash_pieces(HashAlgorithm::Blake3, b"axb", &vec![(1, 1), (0, 0)]),
        [hash, HashAlgorithm::Blake3.hash(b"")]
    );
    assert_eq!(compression_of(None), CompressionFormat::Deflate);
    assert_eq!(compression_of(Some(CompressionFormat::Zstd)), CompressionFormat::Zstd);
}

#[test]
fn pieces_of_a_stream_are_listed_in_order() {
    let algorithm = HashAlgorithm::Blake2b256;
    let mut index = ChunkIndex::new(4096, 0, algorithm);
    let mut streamed = Streamed::new();
    assert_eq!((streamed.hashes.len(), streamed.size), (0, 0));
    let pieces: [&[u8]; 4] = [b"one ", b"two ", b"one ", b"three"];
    let mut contents = Vec::new();
    for (i, piece) in pieces.iter().enumerate() {
        let (hash, counted) = streamed.push(&mut index, piece);
        assert_eq!((hash, counted), (algorithm.hash(piece), i == 2));
        contents.push(encode_chunk(piece, CompressionFormat::Deflate).unwrap());
    }
    assert_eq!(streamed.hashes, pieces.map(|piece| algorithm.hash(piece)));
    assert_eq!(streamed.size, 17);
    assert_eq!(index.references(&algorithm.hash(b"one ")), 2);
    assert_eq!(index.references(&algorithm.hash(b"three")), 1);
    let entry = file_entry("f".to_string(), PLAIN, streamed.size, &streamed.hashes);
    let (hashes, size) = file_content(&entry).unwrap();
    assert_eq!(size, 17);
    assert_eq!(read_window(algorithm, &hashes, &contents).unwrap(), b"one two one three");

    let none = Streamed::new();
    let entry = file_entry("f".to_string(), PLAIN, none.size, &none.hashes);
    assert_eq!(file_content(&entry).unwrap(), (Vec::new(), 0));
}

#[test]
fn files_are_restored_in_windows() {
    let hashes: Vec<ChunkHash> = (0..9).map(|i| [i; 32]).collect();
    let steps = restore_steps(&file("f", 90, Ok(hashes.concat())));
    assert!(matches!(steps[0], RestoreStep::CreateFile));
    assert!(matches!(steps[1], RestoreStep::SetLen(90)));
    let mut written = Vec::new();
    let mut windows = Vec::new();
    for step in &steps[2..5] {
        let RestoreStep::WriteChunks(window) = step else { panic!("{step:?}") };
        windows.push(window.len());
        written.extend_from_slice(window);
    }
    assert_eq!((written, windows), (hashes, vec![4, 4, 1]));
    assert!(matches!(steps[5], RestoreStep::CheckSize(90)));
    assert!(matches!(steps[6], RestoreStep::Chown((3, 4))));
    assert!(matches!(steps[7], RestoreStep::SetTimes(_)));
    assert!(matches!(steps[8], RestoreStep::SetMode(0o640)));
    assert_eq!(steps.len(), 9);

    let steps = restore_steps(&file("f", 1, Ok(A.to_vec())));
    assert!(matches!(&steps[1], RestoreStep::WriteChunks(window) if window == &[A]));
    let steps = restore_steps(&file("f", 4, Ok(Vec::new())));
    assert_eq!(steps.len(), 2);
    assert!(matches!(&steps[1], RestoreStep::Fail(err) if err.kind == ErrorKind::InvalidData));
}

#[test]
fn directories_get_their_mode_last() {
    let steps = restore_steps(&directory("d", Vec::new()));
    assert!(matches!(steps[0], RestoreStep::CreateDir));
    assert!(matches!(steps[1], RestoreStep::RestoreChildren));
    assert!(matches!(steps[2], RestoreStep::StopIfFailed));
    assert!(matches!(steps[3], RestoreStep::OpenDir));
    assert!(matches!(steps[4], RestoreStep::Chown((5, 6))));
    assert!(matches!(steps[5], RestoreStep::SetTimes(_)));
    assert!(matches!(steps[6], RestoreStep::SetMode(0o750)));
    let link = SymlinkEntry {
        name: "l".to_string(),
        mode: 0o777,
        owner: (7, 8),
        mtime: EPOCH,
        target: "t".to_string(),
        target_dir: false,
    };
    let steps = restore_steps(&Entry::Symlink(Box::new(link)));
    assert!(matches!(&steps[0], RestoreStep::MakeSymlink(target, false) if target == "t"));
    assert!(matches!(steps[1], RestoreStep::Chown((7, 8))));
    assert_eq!(steps.len(), 2);
}

#[test]
fn windows_give_back_what_was_stored() {
    let algorithm = HashAlgorithm::Blake3;
    let data = b"one two three four".to_vec();
    let ranges = vec![(0, 4), (4, 4), (8, 10)];
    let hashes = hash_pieces(algorithm, &data, &ranges);
    let contents: Vec<Vec<u8>> = ranges
        .iter()
        .map(|(offset, length)| {
            encode_chunk(&data[*offset..offset + length], CompressionFormat::Zstd).unwrap()
        })
        .collect();
    assert_eq!(read_window(algorithm, &hashes, &contents).unwrap(), data);
    assert!(read_window(algorithm, &Vec::new(), &Vec::new()).unwrap().is_empty());
    let mut swapped = contents.clone();
    swapped.swap(1, 2);
    assert_eq!(told(read_window(algorithm, &hashes, &swapped)).0, ErrorKind::InvalidData);
}

#[test]
fn restored_sizes_and_destinations_are_checked() {
    assert!(check_restored("f", 8, 8).is_ok());
    saying(
        ErrorKind::InvalidData,
        "f restored 8 bytes of the 12 recorded",
        check_restored("f", 8, 12),
    );
    saying(ErrorKind::InvalidData, "entry is not a file", file_content(&directory("d", Vec::new())));
    assert!(check_destination(Ok(true)).is_ok());
    assert!(check_destination(Err(fail(ErrorKind::NotFound))).is_ok());
    saying(
        ErrorKind::InvalidInput,
        "restore destination must be a directory, not a file or symlink",
        check_destination(Ok(false)),
    );
    assert_eq!(told(check_destination(Err(fail(ErrorKind::Other)))).0, ErrorKind::Other);
    assert!(tolerate(Err(fail(ErrorKind::NotFound)), ErrorKind::NotFound).is_ok());
    assert!(tolerate(Ok(()), ErrorKind::NotFound).is_ok());
    assert_eq!(
        told(tolerate(Err(fail(ErrorKind::Other)), ErrorKind::NotFound)).0,
        ErrorKind::Other
    );
    assert_eq!(removable_mode(0o100555), Some(0o100755));
    assert_eq!(removable_mode(0o700), None);
    assert_eq!(removable_mode(0), Some(0o700));
}

#[test]
fn work_in_flight_is_bounded() {
    let mut inflight = Inflight::new(2);
    assert!(inflight.try_acquire() && inflight.try_acquire());
    assert!(!inflight.try_acquire());
    inflight.release();
    assert!(inflight.try_acquire());
    let mut least = Inflight::new(0);
    assert!(least.try_acquire() && !least.try_acquire());
}

#[test]
fn the_directory_above_a_path_is_found() {
    let mut entries = vec![directory("a", vec![directory("b", Vec::new()), file("f", 0, Ok(Vec::new()))])];
    let parent = Repository::archive_path_parent(&mut entries, &texts(&["a", "b", "new"])).unwrap();
    assert_eq!(parent.name, "b");
    parent.entries.push(file("new", 0, Ok(Vec::new())));
    assert_eq!(names(&entries), ["a/", "  b/", "    new", "  f"]);
    assert!(Repository::archive_path_parent(&mut entries, &texts(&["a", "f", "x"])).is_none());
    assert!(Repository::archive_path_parent(&mut entries, &texts(&["z", "x"])).is_none());
    assert!(Repository::archive_path_parent(&mut entries, &texts(&["a"])).is_none());
    assert!(Repository::archive_path_parent(&mut entries, &Vec::new()).is_none());
}
