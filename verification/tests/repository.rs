//! Whole operations on a repository that is kept in memory.
use ddup_bak::chunks::cdc::{cut_file, reads_whole, FileCuts};
use ddup_bak::chunks::chunk::encode_chunk;
use ddup_bak::chunks::codec::CompressionFormat;
use ddup_bak::chunks::detect::Detection;
use ddup_bak::chunks::{entry_hashes, ChunkHash, ChunkIndex, HashAlgorithm, IndexHeader};
use ddup_bak::entries::{collect_hashes, DirectoryEntry, Entry, FileEntry, SymlinkEntry, Timestamp};
use ddup_bak::error::{record, Error, ErrorKind};
use ddup_bak::repository::backup::{
    claim_name, compression_of, file_entry, must_write, skips_walk_error, store, visit, Found,
    Gathering, Metadata, Placed, Streamed, Visit, WalkItem, MAX_DEPTH,
};
use ddup_bak::repository::deletion::{
    delete_decision, find_deletion, settle_decision, settle_pending, DeleteDecision,
    MarkerReading, Settling,
};
use ddup_bak::repository::markers::pending_markers;
use ddup_bak::repository::names::{is_leftover, marker_candidate, partial_file, validate_name};
use ddup_bak::repository::opening::{
    after_migration, legacy_ids, legacy_writer, migrate_archive, migrates_first, migration_ids,
    open_step, refuse_writer, Migration, OpenStep,
};
use ddup_bak::repository::plan::{
    drop_steps, finish_steps, migration_steps, publish_steps, rebuild_steps, recount_steps,
    rewrite_steps, tidy_steps, Step,
};
use ddup_bak::repository::restore::{
    check_restored, file_content, read_window, restore_steps, RestoreStep,
};
use ddup_bak::repository::survey::{
    collect_live, countable_archives, refuse_deletion, survey, OpenArchive, Survey,
};
use ddup_bak::repository::Repository;
use std::collections::{BTreeMap, HashMap};
use std::io::{Read, Write};

const CHUNK_SIZE: usize = 4096;
const EPOCH: Timestamp = Timestamp { seconds: 0, nanos: 0 };

/// An archive file: what opening it gives.
enum Archive {
    Whole(u8, Vec<Entry>),
    Broken(ErrorKind),
}

/// What stands where a chunk should.
enum Slot {
    File(Vec<u8>),
    Directory,
}

#[derive(Default)]
struct Disk {
    archives: BTreeMap<String, Archive>,
    deleting: BTreeMap<String, Archive>,
    /// Other files in the archive directory.
    junk: Vec<String>,
    chunks: BTreeMap<ChunkHash, Slot>,
    index: Option<Vec<u8>>,
    legacy: Option<Vec<u8>>,
    lock: Vec<u8>,
    running: Option<u32>,
    /// Whether the index cannot be written.
    blocked: bool,
    /// Whether deleting a chunk lets the index be written again.
    unblocks: bool,
    deletes: usize,
    fail_delete: usize,
    /// Whether the index may not be read.
    denied: bool,
    /// How many steps are still taken before one fails.
    steps_left: Option<usize>,
    list_first: Option<ChunkHash>,
    compression: Option<CompressionFormat>,
}

struct Fixture {
    disk: Disk,
    repository: Repository,
}

#[derive(Clone, Debug, PartialEq)]
enum Node {
    File(Vec<u8>),
    Directory,
    Link(String),
}

#[derive(Clone, Debug, PartialEq)]
struct Item {
    node: Node,
    mode: u32,
    mtime: Timestamp,
}

type Files = BTreeMap<String, Item>;

fn error(kind: ErrorKind, message: &str) -> Error {
    Error::new(kind, message.to_string())
}

fn random(len: usize) -> Vec<u8> {
    seeded(0x9E3779B97F4A7C15, len)
}

fn seeded(mut state: u64, len: usize) -> Vec<u8> {
    (0..len)
        .map(|_| {
            state ^= state << 13;
            state ^= state >> 7;
            state ^= state << 17;
            state as u8
        })
        .collect()
}

fn source(files: &[(&str, &[u8])]) -> Files {
    let mut out = Files::new();
    for (path, content) in files {
        let parts: Vec<&str> = path.split('/').collect();
        for end in 1..parts.len() {
            out.entry(parts[..end].join("/")).or_insert(Item {
                node: Node::Directory,
                mode: 0o755,
                mtime: EPOCH,
            });
        }
        let item = Item { node: Node::File(content.to_vec()), mode: 0o644, mtime: EPOCH };
        out.insert(path.to_string(), item);
    }
    out
}

fn copy_result(body: &Result<Vec<u8>, Error>) -> Result<Vec<u8>, Error> {
    match body {
        Ok(body) => Ok(body.clone()),
        Err(err) => Err(err.duplicate()),
    }
}

fn copy_entry(entry: &Entry) -> Entry {
    match entry {
        Entry::File(file) => Entry::File(Box::new(FileEntry {
            name: file.name.clone(),
            mode: file.mode,
            owner: file.owner,
            mtime: file.mtime,
            size_real: file.size_real,
            body: copy_result(&file.body),
        })),
        Entry::Directory(dir) => Entry::Directory(Box::new(DirectoryEntry {
            name: dir.name.clone(),
            mode: dir.mode,
            owner: dir.owner,
            mtime: dir.mtime,
            entries: dir.entries.iter().map(copy_entry).collect(),
        })),
        Entry::Symlink(link) => Entry::Symlink(Box::new(SymlinkEntry {
            name: link.name.clone(),
            mode: link.mode,
            owner: link.owner,
            mtime: link.mtime,
            target: link.target.clone(),
            target_dir: link.target_dir,
        })),
    }
}

fn copy_archive(archive: &Archive) -> Archive {
    match archive {
        Archive::Whole(version, entries) => {
            Archive::Whole(*version, entries.iter().map(copy_entry).collect())
        }
        Archive::Broken(kind) => Archive::Broken(*kind),
    }
}

fn open(archive: &Archive) -> Result<OpenArchive, Error> {
    match archive {
        Archive::Whole(version, entries) => Ok(OpenArchive {
            version: *version,
            entries: entries.iter().map(copy_entry).collect(),
        }),
        Archive::Broken(kind) => Err(error(*kind, "archive cannot be read")),
    }
}

impl Disk {
    fn index(&self) -> Result<&[u8], Error> {
        match &self.index {
            _ if self.denied => Err(error(ErrorKind::PermissionDenied, "index may not be read")),
            Some(bytes) => Ok(bytes),
            None => Err(error(ErrorKind::NotFound, "no index")),
        }
    }

    fn save(&mut self, index: &ChunkIndex) -> Result<(), Error> {
        if self.blocked {
            return Err(error(ErrorKind::Other, "index.tmp is a directory"));
        }
        self.index = Some(index.save());
        Ok(())
    }

    fn header(&self) -> Result<IndexHeader, Error> {
        ChunkIndex::load_header(self.index()?)
    }

    fn archive_names(&self) -> Vec<String> {
        let mut files: Vec<Option<String>> = self.archives.keys().cloned().map(Some).collect();
        files.extend(self.junk.iter().cloned().map(Some));
        Repository::list_archives(&files)
    }

    fn markers(&self) -> Vec<String> {
        let files: Vec<Option<String>> = self.deleting.keys().cloned().map(Some).collect();
        pending_markers(&files)
    }

    fn pending_deletions(&self) -> Vec<String> {
        Repository::pending_deletions(&self.markers())
    }

    fn get_archive(&self, name: &str) -> Result<Vec<Entry>, Error> {
        Repository::archive_path(name)?;
        let opened = match self.archives.get(&format!("{name}.ddup")) {
            Some(archive) => open(archive),
            None => Err(error(ErrorKind::NotFound, "no archive")),
        };
        Repository::get_archive(name, opened, ".ddup-bak/chunks/index")
    }

    fn surveys(&self) -> Result<Vec<Survey>, Error> {
        self.archive_names().iter().map(|name| survey(name, self.get_archive(name))).collect()
    }

    fn unreadable_archives(&self) -> Result<Vec<String>, Error> {
        Ok(Repository::unreadable_archives(&self.surveys()?))
    }

    fn stored(&self) -> Vec<ChunkHash> {
        let mut hashes: Vec<ChunkHash> = self.list_first.into_iter().collect();
        hashes.extend(self.chunks.keys().filter(|hash| Some(**hash) != self.list_first));
        hashes
    }

    fn read(&self, hash: &ChunkHash) -> Result<Vec<u8>, Error> {
        match self.chunks.get(hash) {
            Some(Slot::File(content)) => Ok(content.clone()),
            Some(Slot::Directory) => Err(error(ErrorKind::Foreign(1), "is a directory")),
            None if *hash == [0; 32] => Ok(Vec::new()),
            None => Err(error(ErrorKind::NotFound, "no chunk")),
        }
    }

    fn has(&self, hash: &ChunkHash) -> Result<bool, Error> {
        match self.chunks.get(hash) {
            Some(Slot::File(content)) => Ok(!content.is_empty()),
            Some(Slot::Directory) => Err(error(ErrorKind::Foreign(1), "is a directory")),
            None => Ok(false),
        }
    }

    fn write(&mut self, hash: &ChunkHash, content: Vec<u8>) -> Result<(), Error> {
        if matches!(self.chunks.get(hash), Some(Slot::Directory)) {
            return Err(error(ErrorKind::Foreign(1), "is a directory"));
        }
        self.chunks.insert(*hash, Slot::File(content));
        Ok(())
    }

    fn delete(&mut self, hash: &ChunkHash) -> Result<(), Error> {
        self.deletes += 1;
        if self.deletes == self.fail_delete {
            return Err(error(ErrorKind::Other, "disk gave up"));
        }
        self.chunks.remove(hash);
        if self.unblocks {
            self.blocked = false;
        }
        Ok(())
    }

    /// Carries out the steps of a plan.
    fn run(
        &mut self,
        steps: Vec<Step>,
        index: &ChunkIndex,
        file: &str,
        entries: &[Entry],
        report: &mut dyn FnMut(&ChunkHash, bool),
    ) -> Result<(), Error> {
        for step in steps {
            match &mut self.steps_left {
                Some(0) => return Err(error(ErrorKind::Other, "interrupted")),
                Some(left) => *left -= 1,
                None => {}
            }
            match step {
                Step::MoveToDeleting(marker) => {
                    let archive = self.archives.remove(file).unwrap();
                    self.deleting.insert(marker, archive);
                }
                Step::DeleteChunk(hash) => self.delete(&hash)?,
                Step::SweepChunk(hash) => {
                    self.delete(&hash)?;
                    report(&hash, true);
                }
                Step::ReleaseChunk(hash, deleted) => {
                    if deleted {
                        self.delete(&hash)?;
                    }
                    report(&hash, deleted);
                }
                Step::RemovePartialArchives => self.junk.retain(|file| !is_leftover(file)),
                Step::SaveIndex => self.save(index)?,
                Step::PublishArchive => {
                    let entries = entries.iter().map(copy_entry).collect();
                    self.archives.insert(file.to_string(), Archive::Whole(2, entries));
                }
                Step::RemoveMarker(marker) => {
                    self.deleting.remove(&marker);
                }
                Step::RemoveArchive => {
                    self.archives.remove(file);
                }
                Step::KeepIds => self.legacy = self.index.clone(),
                Step::RemoveIds => self.legacy = None,
                Step::SyncArchiveDirs
                | Step::MakeDeletingDir
                | Step::RemoveLeftovers
                | Step::SyncStorage
                | Step::WriteFooter
                | Step::SyncArchive
                | Step::SyncArchivesDir => {}
            }
        }
        Ok(())
    }
}

impl Fixture {
    fn new() -> Self {
        Self::with_hash(HashAlgorithm::default())
    }

    fn with_hash(algorithm: HashAlgorithm) -> Self {
        let repository = Repository::new_with_hash(CHUNK_SIZE, 0, algorithm);
        let mut disk = Disk { compression: Some(CompressionFormat::Deflate), ..Disk::default() };
        disk.index = Some(repository.new_index().save());
        Self { disk, repository }
    }

    fn store_file(
        &mut self,
        index: &mut ChunkIndex,
        content: &[u8],
    ) -> Result<(Vec<ChunkHash>, u64), Error> {
        let compression = compression_of(self.disk.compression);
        let sizes = self.repository.cut_sizes(content.len() as u64);
        let data = if reads_whole(sizes, content.len() as u64) { content } else { &[] };
        match cut_file(sizes, content.len() as u64, data) {
            FileCuts::Pieces(ranges) => {
                let mut hashes = Vec::new();
                for (offset, length) in ranges {
                    let piece = &content[offset..offset + length];
                    let (hash, counted) = store(index, piece);
                    hashes.push(hash);
                    self.write_chunk(&hash, counted, piece, compression)?;
                }
                Ok((hashes, content.len() as u64))
            }
            FileCuts::Stream(sizes) => {
                let mut streamed = Streamed::new();
                let cuts =
                    fastcdc::v2020::StreamCDC::new(content, sizes.min, sizes.avg, sizes.max);
                for chunk in cuts {
                    let piece = chunk.unwrap().data;
                    let (hash, counted) = streamed.push(index, &piece);
                    self.write_chunk(&hash, counted, &piece, compression)?;
                }
                Ok((streamed.hashes, streamed.size))
            }
        }
    }

    fn write_chunk(
        &mut self,
        hash: &ChunkHash,
        counted: bool,
        piece: &[u8],
        compression: CompressionFormat,
    ) -> Result<(), Error> {
        let present = counted && self.disk.has(hash)?;
        if must_write(counted, present) {
            self.disk.write(hash, encode_chunk(piece, compression)?)?;
        }
        Ok(())
    }

    fn backup(&mut self, name: &str, files: &Files) -> Result<(), Error> {
        Repository::archive_path(name)?;
        let file = format!("{name}.ddup");
        let look = match self.disk.archives.get(&file) {
            Some(_) => Ok(()),
            None => Err(error(ErrorKind::NotFound, "free")),
        };
        claim_name(name, look)?;
        let mut index = ChunkIndex::load(self.disk.index()?)?;
        let mut gathering = Gathering::new();
        for (path, item) in files {
            let parts = path.split('/').map(|part| Some(part.to_string())).collect();
            let walked = WalkItem { shown: path.clone(), parts: Some(parts) };
            let (name, parent) = match visit(&walked, "src", MAX_DEPTH)? {
                Visit::Skip => continue,
                Visit::Take(name, parent) => (name, parent),
            };
            let metadata = Metadata { mode: item.mode, owner: (0, 0), mtime: item.mtime };
            let found = match &item.node {
                Node::File(_) => Found::File,
                Node::Directory => Found::Directory(metadata),
                Node::Link(target) => Found::Symlink(metadata, Some(target.clone()), false),
            };
            if let Placed::File(name, parent) = gathering.place(path, name, parent, found)? {
                let Node::File(content) = &item.node else { unreachable!() };
                match self.store_file(&mut index, content) {
                    Ok((hashes, size)) => {
                        gathering.add(parent, file_entry(name, metadata, size, &hashes))
                    }
                    Err(err) => gathering.record(Err(err)),
                }
            }
        }
        let entries = gathering.finish()?;
        self.disk.run(publish_steps(), &index, &file, &entries, &mut |_, _| {})
    }

    fn restore(&mut self, name: &str) -> Result<Files, Error> {
        let entries = self.disk.get_archive(name)?;
        let mut files = Files::new();
        let mut failed = None;
        for entry in &entries {
            let result = self.restore_entry(entry, "", &mut files, &mut failed);
            record(result, &mut failed);
        }
        match failed {
            Some(err) => Err(err),
            None => Ok(files),
        }
    }

    fn restore_entry(
        &mut self,
        entry: &Entry,
        dir: &str,
        files: &mut Files,
        failed: &mut Option<Error>,
    ) -> Result<(), Error> {
        let name = match entry {
            Entry::File(file) => &file.name,
            Entry::Directory(dir) => &dir.name,
            Entry::Symlink(link) => &link.name,
        };
        let path = if dir.is_empty() { name.clone() } else { format!("{dir}/{name}") };
        let mut written = 0;
        for step in restore_steps(entry) {
            match step {
                RestoreStep::CreateFile => {
                    let item = Item { node: Node::File(Vec::new()), mode: 0o600, mtime: EPOCH };
                    assert!(files.insert(path.clone(), item).is_none());
                }
                RestoreStep::CreateDir => {
                    let item = Item { node: Node::Directory, mode: 0o700, mtime: EPOCH };
                    assert!(files.insert(path.clone(), item).is_none());
                }
                RestoreStep::WriteChunks(hashes) => {
                    let data = self.window(&hashes)?;
                    written += data.len() as u64;
                    match &mut files.get_mut(&path).unwrap().node {
                        Node::File(content) => content.extend_from_slice(&data),
                        _ => unreachable!(),
                    }
                }
                RestoreStep::CheckSize(size) => check_restored(&path, written, size)?,
                RestoreStep::RestoreChildren => {
                    let Entry::Directory(directory) = entry else { unreachable!() };
                    for child in &directory.entries {
                        let result = self.restore_entry(child, &path, files, failed);
                        record(result, failed);
                    }
                }
                RestoreStep::StopIfFailed => {
                    if failed.is_some() {
                        return Ok(());
                    }
                }
                RestoreStep::MakeSymlink(target, _) => {
                    let item = Item { node: Node::Link(target), mode: 0o777, mtime: EPOCH };
                    assert!(files.insert(path.clone(), item).is_none());
                }
                RestoreStep::SetTimes(mtime) => files.get_mut(&path).unwrap().mtime = mtime,
                RestoreStep::SetMode(mode) => files.get_mut(&path).unwrap().mode = mode,
                RestoreStep::Fail(err) => return Err(err),
                RestoreStep::SetLen(_) | RestoreStep::OpenDir | RestoreStep::Chown(_) => {}
            }
        }
        Ok(())
    }

    fn window(&self, hashes: &Vec<ChunkHash>) -> Result<Vec<u8>, Error> {
        let contents = hashes.iter().map(|hash| self.disk.read(hash)).collect::<Result<_, _>>()?;
        read_window(self.repository.hash_algorithm(), hashes, &contents)
    }

    fn read_entry_content(&self, entry: &Entry) -> Result<Vec<u8>, Error> {
        let (hashes, size) = file_content(entry)?;
        let data = self.window(&hashes)?;
        check_restored("content", data.len() as u64, size)?;
        Ok(data)
    }

    fn recounted(&mut self) -> Result<ChunkIndex, Error> {
        let header = self.disk.header()?;
        let mut index = self.repository.recounted_index(&header);
        index.zero_all(&self.disk.stored());
        for name in countable_archives(&self.disk.surveys()?)? {
            index.count_references(&self.disk.get_archive(&name)?, &mut Vec::new())?;
        }
        Ok(index)
    }

    fn recount(&mut self) -> Result<(), Error> {
        let markers = self.disk.markers();
        let index = self.recounted()?;
        self.disk.run(recount_steps(&markers), &index, "", &[], &mut |_, _| {})
    }

    /// The chunks of interrupted deletions, and the index, counted again where a marker hides them.
    fn pending(
        &mut self,
        index: ChunkIndex,
    ) -> Result<(ChunkIndex, Option<Vec<ChunkHash>>, Vec<String>), Error> {
        let markers = self.disk.markers();
        if markers.is_empty() {
            return Ok((index, None, markers));
        }
        let readings: Vec<MarkerReading> = markers
            .iter()
            .map(|marker| MarkerReading {
                path: format!(".ddup-bak/deleting/{marker}"),
                opened: open(&self.disk.deleting[marker]).map(|archive| archive.entries),
            })
            .collect();
        match settle_decision(&readings)? {
            Settling::Chunks(hashes) => Ok((index, Some(hashes), markers)),
            Settling::Recount => Ok((self.recounted()?, Some(Vec::new()), markers)),
        }
    }

    fn delete_archive(&mut self, name: &str) -> Result<(), Error> {
        Repository::archive_path(name)?;
        let file = format!("{name}.ddup");
        let live = self.disk.archives.contains_key(&file);
        find_deletion(name, live, &self.disk.markers())?;
        let surveys = self.disk.surveys()?;
        let decision = delete_decision(name, live, &self.disk.markers(), &surveys)?;
        if decision == DeleteDecision::DropAndRecount {
            let index = self.repository.new_index();
            self.disk.run(drop_steps(), &index, &file, &[], &mut |_, _| {})?;
            return self.recount();
        }
        let index = ChunkIndex::load(self.disk.index()?)?;
        let (mut index, pending, markers) = self.pending(index)?;
        let gone = if live {
            let mut hashes = Vec::new();
            collect_hashes(&self.disk.get_archive(name)?, &mut hashes)?;
            let mut n = 0;
            while self.disk.deleting.contains_key(&marker_candidate(name, n)) {
                n += 1;
            }
            Some((hashes, marker_candidate(name, n)))
        } else {
            None
        };
        let live_hashes = collect_live(&surveys);
        let plan =
            Repository::delete_archive(&mut index, &pending, &live_hashes, gone, markers);
        self.disk.run(plan.steps, &index, &file, &[], &mut |_, _| {})
    }

    fn clean(&mut self, report: &mut dyn FnMut(&ChunkHash, bool)) -> Result<(), Error> {
        let surveys = self.disk.surveys()?;
        refuse_deletion(&Repository::unreadable_archives(&surveys))?;
        let index = ChunkIndex::load(self.disk.index()?)?;
        let (mut index, pending, markers) = self.pending(index)?;
        let (_, steps) = settle_pending(&mut index, &pending, &collect_live(&surveys));
        self.disk.run(steps, &index, "", &[], report)?;
        self.disk.run(tidy_steps(), &index, "", &[], report)?;
        let (_, steps) = Repository::clean(&mut index, &self.disk.stored(), &markers);
        self.disk.run(steps, &index, "", &[], report)
    }

    fn rebuild(&mut self) -> Result<(), Error> {
        if migrates_first(self.disk.header())? {
            self.migrate_v1(true)?;
        }
        let mut detection = Detection::new();
        let mut detected = None;
        for hash in self.disk.stored() {
            let content = self.disk.read(&hash);
            detected = detection.look(&hash, content)?;
            if detected.is_some() {
                break;
            }
        }
        if detected.is_none() {
            detected = detection.finish()?;
        }
        self.repository = Repository::rebuild(CHUNK_SIZE, 0, detected, self.disk.header())?;
        let mut archives = Vec::new();
        for name in countable_archives(&self.disk.surveys()?)? {
            archives.push(self.disk.get_archive(&name)?);
        }
        let index = ChunkIndex::rebuild(
            CHUNK_SIZE,
            0,
            self.repository.hash_algorithm(),
            &self.disk.stored(),
            &archives,
            &mut Vec::new(),
        )?;
        let markers = self.disk.markers();
        self.disk.run(rebuild_steps(&markers), &index, "", &[], &mut |_, _| {})
    }

    fn open(&mut self) -> Result<(), Error> {
        let header = self.disk.header()?;
        self.repository = Repository::open(header);
        match open_step(header, self.disk.legacy.is_some()) {
            OpenStep::Migrate => self.migrate_v1(false),
            OpenStep::FinishMigration => self.finish_migration(),
            OpenStep::Nothing => Ok(()),
        }
    }

    fn migrate_v1(&mut self, salvage: bool) -> Result<(), Error> {
        let writer = legacy_writer(&self.disk.lock).filter(|pid| Some(*pid) == self.disk.running);
        refuse_writer(writer)?;
        let Some(ids) = migration_ids(salvage, self.disk.index()?)? else {
            return Ok(());
        };
        let remaining = self.migrate_archives(&ids)?;
        let next = after_migration(salvage, remaining);
        self.repository = Repository::open(self.disk.header()?);
        let mut index = self.repository.new_index();
        index.zero_all(&self.disk.stored());
        for name in countable_archives(&self.disk.surveys()?)? {
            index.count_references(&self.disk.get_archive(&name)?, &mut Vec::new())?;
        }
        self.disk.run(migration_steps(next), &index, "", &[], &mut |_, _| {})
    }

    fn migrate_archives(&mut self, ids: &HashMap<u64, ChunkHash>) -> Result<bool, Error> {
        let mut remaining = false;
        for name in self.disk.archive_names() {
            let file = format!("{name}.ddup");
            match migrate_archive(&open(&self.disk.archives[&file]), ids)? {
                Migration::Keep => {}
                Migration::Skip => remaining = true,
                Migration::Rewrite(entries) => {
                    let index = self.repository.new_index();
                    self.disk.run(rewrite_steps(), &index, &file, &entries, &mut |_, _| {})?;
                }
            }
        }
        Ok(remaining)
    }

    fn finish_migration(&mut self) -> Result<(), Error> {
        let Some(ids) = legacy_ids(self.disk.legacy.as_ref().unwrap())? else {
            return Ok(());
        };
        let remaining = self.migrate_archives(&ids)?;
        let markers = self.disk.markers();
        let index = self.recounted()?;
        self.disk.run(finish_steps(remaining, &markers), &index, "", &[], &mut |_, _| {})
    }

    fn stored_chunks(&self) -> usize {
        self.disk.chunks.len()
    }

    fn chunk_of(&self, content: &[u8]) -> &[u8] {
        match &self.disk.chunks[&self.repository.hash_algorithm().hash(content)] {
            Slot::File(content) => content,
            Slot::Directory => panic!("a directory"),
        }
    }

    fn index(&self) -> ChunkIndex {
        ChunkIndex::load(self.disk.index().unwrap()).unwrap()
    }

    /// Moves an archive to `deleting`, as an interrupted deletion leaves it.
    fn interrupt(&mut self, from: &str, to: &str) {
        let archive = self.disk.archives.remove(from).unwrap();
        self.disk.deleting.insert(to.to_string(), archive);
    }

    fn rename(&mut self, from: &str, to: &str) {
        let archive = self.disk.archives.remove(from).unwrap();
        self.disk.archives.insert(to.to_string(), archive);
    }
}

fn file_of(entries: &[Entry]) -> &Entry {
    entries.iter().find(|entry| matches!(entry, Entry::File(_))).unwrap()
}

fn list_of(body: Result<Vec<u8>, Error>, size_real: u64) -> Archive {
    let file = FileEntry {
        name: "f".to_string(),
        mode: 0o600,
        owner: (0, 0),
        mtime: EPOCH,
        size_real,
        body,
    };
    Archive::Whole(2, vec![Entry::File(Box::new(file))])
}

#[test]
fn roundtrip_restores_every_file_and_metadata() {
    let mut fixture = Fixture::new();
    let big = random(300 * 1024);
    let mut files = source(&[
        ("big.bin", &big),
        (".hidden", b"hidden"),
        ("sub/.ignore", b"ignored.txt"),
        ("sub/ignored.txt", b"still backed up"),
        ("ro/file", b"read only dir"),
        ("empty", b""),
    ]);
    let old = Timestamp { seconds: 1_500_000_000, nanos: 0 };
    files.get_mut("sub").unwrap().mtime = old;
    files.get_mut("ro").unwrap().mode = 0o555;
    let link = Item { node: Node::Link("big.bin".to_string()), mode: 0o777, mtime: EPOCH };
    files.insert("link".to_string(), link);

    fixture.backup("b", &files).unwrap();
    let restored = fixture.restore("b").unwrap();
    assert_eq!(restored, files);
    assert_eq!(restored["sub"].mtime, old);
    assert_eq!(restored["ro"].mode & 0o777, 0o555);
    assert_eq!(restored["link"].node, Node::Link("big.bin".to_string()));
}

#[test]
fn rebuild_recreates_the_index_exactly() {
    let mut fixture = Fixture::new();
    let contents: Vec<(String, Vec<u8>)> =
        (0..5).map(|i| (format!("f{i}"), random(10_000 + i))).collect();
    let refs: Vec<(&str, &[u8])> =
        contents.iter().map(|(n, c)| (n.as_str(), c.as_slice())).collect();
    let files = source(&refs);
    fixture.backup("b", &files).unwrap();
    let before = fixture.stored_chunks();
    let mut counted = fixture.index().iter();
    counted.sort();

    fixture.disk.index = None;
    assert!(fixture.open().is_err());
    fixture.rebuild().unwrap();
    let mut recounted = fixture.index().iter();
    recounted.sort();
    assert_eq!(recounted, counted);
    fixture.clean(&mut |_, _| {}).unwrap();

    assert_eq!(fixture.restore("b").unwrap(), files);
    assert_eq!(fixture.stored_chunks(), before);

    fixture.delete_archive("b").unwrap();
    assert_eq!(fixture.stored_chunks(), 0);
}

#[test]
fn delete_keeps_chunks_shared_with_other_archives() {
    let mut fixture = Fixture::new();
    let shared = random(50_000);
    let first = source(&[("shared", &shared), ("only-first", b"1")]);
    let second = source(&[("shared", &shared), ("only-second", b"2")]);
    fixture.backup("first", &first).unwrap();
    fixture.backup("second", &second).unwrap();

    fixture.delete_archive("first").unwrap();
    assert_eq!(fixture.restore("second").unwrap(), second);
}

#[test]
fn interrupted_delete_does_not_leave_the_index_pointing_at_missing_chunks() {
    let mut fixture = Fixture::new();
    fixture.disk.fail_delete = 2;
    let files = source(&[("f", &random(50_000))]);
    fixture.backup("a", &files).unwrap();

    assert!(fixture.delete_archive("a").is_err());

    fixture.backup("b", &files).unwrap();
    assert_eq!(fixture.restore("b").unwrap(), files);
}

#[test]
fn a_delete_that_fails_midway_is_finished_by_the_next_deletion() {
    let mut fixture = Fixture::new();
    let files = source(&[("f", &random(20_000))]);
    fixture.backup("a", &files).unwrap();

    fixture.disk.fail_delete = 1;
    fixture.disk.blocked = true;
    let result = fixture.delete_archive("a");
    fixture.disk.blocked = false;
    assert!(result.is_err());
    assert_eq!(fixture.disk.archive_names(), Vec::<String>::new());
    assert_eq!(fixture.disk.pending_deletions(), ["a"]);

    fixture.delete_archive("a").unwrap();
    assert!(fixture.disk.pending_deletions().is_empty());
    assert_eq!(fixture.stored_chunks(), 0);
}

#[test]
fn a_crash_between_chunk_deletion_and_the_index_save_is_recovered() {
    let mut fixture = Fixture::new();
    let shared = random(50_000);
    let a = source(&[("shared", &shared), ("only-a", &seeded(1, 50_000))]);
    let b = source(&[("shared", &shared), ("only-b", &seeded(2, 50_000))]);
    fixture.backup("b", &b).unwrap();
    let of_b = fixture.disk.stored();
    fixture.backup("a", &a).unwrap();
    let all = fixture.stored_chunks();
    let only_in_a =
        fixture.disk.stored().into_iter().find(|hash| !of_b.contains(hash)).unwrap();

    // A crash after moving the archive and removing one chunk, before the index was saved.
    fixture.interrupt("a.ddup", "a.ddup");
    fixture.disk.chunks.remove(&only_in_a);

    fixture.backup("c", &a).unwrap();
    assert_eq!(fixture.disk.pending_deletions(), ["a"]);
    assert_eq!(fixture.restore("c").unwrap(), a);
    fixture.clean(&mut |_, _| {}).unwrap();
    assert!(fixture.disk.pending_deletions().is_empty());

    fixture.delete_archive("c").unwrap();
    fixture.clean(&mut |_, _| {}).unwrap();
    assert!(fixture.stored_chunks() < all);
    assert_eq!(fixture.restore("b").unwrap(), b);
}

#[test]
fn a_pending_deletion_does_not_hold_up_the_next_one() {
    let mut fixture = Fixture::new();
    let shared = random(50_000);
    let x = source(&[("shared", &shared), ("only-x", &seeded(1, 50_000))]);
    let y = source(&[("shared", &shared), ("only-y", &seeded(2, 50_000))]);
    let z = source(&[("shared", &shared)]);
    for (name, files) in [("x", &x), ("y", &y), ("z", &z)] {
        fixture.backup(name, files).unwrap();
    }
    let all = fixture.stored_chunks();

    fixture.interrupt("x.ddup", "x.ddup");

    fixture.delete_archive("y").unwrap();
    assert!(fixture.disk.pending_deletions().is_empty());
    assert_eq!(fixture.disk.archive_names(), ["z"]);
    assert!(fixture.stored_chunks() < all);
    assert_eq!(fixture.restore("z").unwrap(), z);
}

#[test]
fn a_live_archive_named_like_a_pending_deletion_is_deleted_too() {
    let mut fixture = Fixture::new();
    let files = source(&[("f", &random(20_000))]);
    fixture.backup("a", &files).unwrap();

    // An older version unaware of pending deletions could leave this state.
    fixture.interrupt("a.ddup", "a.ddup");
    fixture.backup("b", &source(&[("g", &seeded(3, 20_000))])).unwrap();
    fixture.rename("b.ddup", "a.ddup");

    fixture.delete_archive("a").unwrap();
    assert!(fixture.disk.archive_names().is_empty());
    assert!(fixture.disk.pending_deletions().is_empty());
    assert_eq!(fixture.stored_chunks(), 0);
}

#[test]
fn a_live_archive_whose_name_the_file_system_equates_with_a_pending_one_is_deleted_too() {
    let mut fixture = Fixture::new();
    let files = source(&[("f", &random(20_000))]);
    fixture.backup("a", &files).unwrap();

    fixture.interrupt("a.ddup", "a.ddup");
    fixture.backup("b", &source(&[("g", &seeded(3, 20_000))])).unwrap();
    fixture.rename("b.ddup", "A.ddup");

    fixture.delete_archive("A").unwrap();
    assert!(fixture.disk.archive_names().is_empty());
    assert!(fixture.disk.pending_deletions().is_empty());
    assert_eq!(fixture.stored_chunks(), 0);
}

#[test]
fn chunks_an_interrupted_clean_deleted_are_written_again() {
    let mut fixture = Fixture::new();
    let files = source(&[("f", &random(30_000))]);
    fixture.backup("a", &files).unwrap();

    // An interrupted clean: counts at zero, files already gone.
    let mut index = fixture.index();
    for (hash, _) in index.iter() {
        index.set(&hash, 0);
        fixture.disk.delete(&hash).unwrap();
    }
    fixture.disk.save(&index).unwrap();

    fixture.backup("b", &files).unwrap();
    assert_eq!(fixture.restore("b").unwrap(), files);
}

#[test]
fn a_delete_sharing_a_pending_name_frees_space_before_it_needs_any() {
    let mut fixture = Fixture::new();
    fixture.disk.unblocks = true;
    let shared = random(50_000);
    fixture.backup("a", &source(&[("shared", &shared)])).unwrap();
    fixture.interrupt("a.ddup", "a.ddup");
    let b = source(&[("shared", &shared), ("only-b", &seeded(3, 50_000))]);
    fixture.backup("b", &b).unwrap();
    fixture.rename("b.ddup", "a.ddup");

    // The index cannot be saved until a chunk is deleted. The pending `a` shares every chunk with
    // the live one, so only deleting the live one's chunks allows it.
    fixture.disk.blocked = true;
    fixture.delete_archive("a").unwrap();
    assert!(fixture.disk.archive_names().is_empty());
    assert!(fixture.disk.pending_deletions().is_empty());
    assert_eq!(fixture.stored_chunks(), 0);
}

#[test]
fn rebuild_fails_rather_than_skip_an_archive_it_is_not_allowed_to_read() {
    let mut fixture = Fixture::new();
    let files = source(&[("f", &random(20_000))]);
    fixture.backup("a", &files).unwrap();
    fixture.backup("b", &files).unwrap();

    let b = fixture.disk.archives.remove("b.ddup").unwrap();
    fixture
        .disk
        .archives
        .insert("b.ddup".to_string(), Archive::Broken(ErrorKind::PermissionDenied));
    assert_eq!(fixture.rebuild().err().map(|err| err.kind), Some(ErrorKind::PermissionDenied));
    fixture.disk.archives.insert("b.ddup".to_string(), b);

    fixture.rebuild().unwrap();
    fixture.delete_archive("a").unwrap();
    assert_eq!(fixture.restore("b").unwrap(), files);
}

#[test]
fn a_chunk_lost_from_storage_is_written_back_by_the_next_backup_after_rebuild() {
    let mut fixture = Fixture::new();
    let files = source(&[("f", &random(30_000))]);
    fixture.backup("a", &files).unwrap();
    let lost = fixture.disk.stored()[0];
    fixture.disk.delete(&lost).unwrap();

    fixture.rebuild().unwrap();
    fixture.backup("b", &files).unwrap();
    assert_eq!(fixture.restore("a").unwrap(), files);

    fixture.delete_archive("a").unwrap();
    assert_eq!(fixture.restore("b").unwrap(), files);
}

#[test]
fn a_chunk_lost_from_storage_is_written_back_by_the_next_backup_after_recovery() {
    let mut fixture = Fixture::new();
    let files = source(&[("f", &random(30_000))]);
    fixture.backup("a", &files).unwrap();
    fixture.backup("b", &files).unwrap();
    fixture.interrupt("a.ddup", "a.ddup");
    let lost = fixture.disk.stored()[0];
    fixture.disk.delete(&lost).unwrap();

    fixture.clean(&mut |_, _| {}).unwrap();
    fixture.backup("c", &files).unwrap();
    assert_eq!(fixture.restore("b").unwrap(), files);

    fixture.delete_archive("b").unwrap();
    assert_eq!(fixture.restore("c").unwrap(), files);
}

#[test]
fn a_numbered_marker_is_reported_under_the_archive_name_and_settled_by_it() {
    let mut fixture = Fixture::new();
    fixture.backup("a", &source(&[("f", &random(20_000))])).unwrap();
    fixture.backup("b", &source(&[("g", &seeded(3, 20_000))])).unwrap();
    // An older version unaware of pending deletions could leave `a` both pending and live.
    fixture.interrupt("a.ddup", "a.ddup");
    fixture.rename("b.ddup", "a.ddup");

    fixture.disk.blocked = true;
    assert!(fixture.delete_archive("a").is_err());
    fixture.disk.blocked = false;
    assert!(fixture.disk.deleting.contains_key("a.ddup.1"));
    assert_eq!(fixture.disk.pending_deletions(), ["a"]);

    fixture.delete_archive("a").unwrap();
    assert!(fixture.disk.pending_deletions().is_empty());
    assert_eq!(fixture.stored_chunks(), 0);
}

#[test]
fn a_directory_where_a_chunk_should_be_fails_the_backup() {
    let mut fixture = Fixture::new();
    let files = source(&[("f", &random(30_000))]);
    fixture.backup("a", &files).unwrap();
    let hash = fixture.disk.stored()[0];
    fixture.disk.chunks.insert(hash, Slot::Directory);

    assert!(fixture.backup("b", &files).is_err());
}

#[test]
fn rebuild_keeps_the_recorded_hash_algorithm_when_storage_is_empty() {
    let mut fixture = Fixture::with_hash(HashAlgorithm::Blake3);
    fixture.backup("a", &source(&[("f", &random(20_000))])).unwrap();
    for hash in fixture.disk.stored() {
        fixture.disk.delete(&hash).unwrap();
    }

    fixture.rebuild().unwrap();
    assert_eq!(fixture.repository.hash_algorithm(), HashAlgorithm::Blake3);
}

#[test]
fn a_live_archive_with_the_longest_name_sharing_a_pending_one_is_deleted_too() {
    let mut fixture = Fixture::new();
    let name = "n".repeat(250);
    let file = format!("{name}.ddup");
    fixture.backup(&name, &source(&[("f", &random(20_000))])).unwrap();
    fixture.interrupt(&file, &file);
    fixture.backup("b", &source(&[("g", &seeded(3, 20_000))])).unwrap();
    fixture.rename("b.ddup", &file);

    fixture.delete_archive(&name).unwrap();
    assert!(fixture.disk.archive_names().is_empty());
    assert!(fixture.disk.pending_deletions().is_empty());
    assert_eq!(fixture.stored_chunks(), 0);
}

#[test]
fn a_numbered_marker_for_the_longest_name_carries_no_name_and_is_still_settled() {
    let mut fixture = Fixture::new();
    let name = "n".repeat(250);
    let file = format!("{name}.ddup");
    fixture.backup(&name, &source(&[("f", &random(20_000))])).unwrap();
    fixture.backup("b", &source(&[("g", &seeded(3, 20_000))])).unwrap();
    fixture.interrupt(&file, &file);
    fixture.rename("b.ddup", &file);

    fixture.disk.blocked = true;
    assert!(fixture.delete_archive(&name).is_err());
    fixture.disk.blocked = false;
    assert!(fixture.disk.deleting.contains_key(".ddup.1"));
    assert_eq!(fixture.disk.pending_deletions(), [name.as_str()]);

    fixture.clean(&mut |_, _| {}).unwrap();
    assert!(fixture.disk.pending_deletions().is_empty());
    assert!(fixture.disk.deleting.is_empty());
    assert_eq!(fixture.stored_chunks(), 0);
}

#[test]
fn an_empty_chunk_file_is_written_over_by_the_next_backup() {
    let mut fixture = Fixture::new();
    let files = source(&[("f", &random(30_000))]);
    fixture.backup("a", &files).unwrap();
    let hash = fixture.disk.stored()[0];
    fixture.disk.chunks.insert(hash, Slot::File(Vec::new()));

    fixture.backup("b", &files).unwrap();
    assert_eq!(fixture.restore("b").unwrap(), files);
}

#[test]
fn a_nameless_marker_neither_stops_the_next_backup_nor_survives_clean() {
    let mut fixture = Fixture::new();
    fixture.backup("a", &source(&[("f", &random(20_000))])).unwrap();
    fixture.interrupt("a.ddup", ".ddup.1");

    let second = source(&[("g", &seeded(3, 20_000))]);
    fixture.backup("b", &second).unwrap();
    fixture.clean(&mut |_, _| {}).unwrap();
    assert!(fixture.disk.deleting.is_empty());
    assert_eq!(fixture.restore("b").unwrap(), second);
    fixture.delete_archive("b").unwrap();
    assert_eq!(fixture.stored_chunks(), 0);
}

#[test]
fn an_index_with_an_impossible_reference_count_is_rejected() {
    let mut fixture = Fixture::new();
    let files = source(&[("f", &random(3_000))]);
    fixture.backup("a", &files).unwrap();

    let mut index = fixture.index();
    for (hash, _) in index.iter() {
        index.set(&hash, u64::MAX);
    }
    fixture.disk.save(&index).unwrap();

    assert_eq!(
        ChunkIndex::load(fixture.disk.index().unwrap()).err().map(|err| err.kind),
        Some(ErrorKind::InvalidData)
    );
    assert!(fixture.backup("b", &files).is_err());
    fixture.rebuild().unwrap();
    fixture.backup("b", &files).unwrap();
    assert_eq!(fixture.restore("b").unwrap(), files);
}

#[test]
fn an_entry_with_content_but_no_chunks_is_damage() {
    let mut fixture = Fixture::new();
    fixture.disk.archives.insert("bad.ddup".to_string(), list_of(Ok(Vec::new()), 4));

    assert_eq!(fixture.disk.unreadable_archives().unwrap(), ["bad"]);
    assert_eq!(fixture.clean(&mut |_, _| {}).unwrap_err().kind, ErrorKind::Unsupported);
}

#[test]
fn a_reference_count_at_the_accepted_limit_stays_loadable_after_a_backup() {
    let mut fixture = Fixture::new();
    let files = source(&[("f", &random(3_000))]);
    fixture.backup("a", &files).unwrap();

    let mut index = fixture.index();
    for (hash, _) in index.iter() {
        index.set(&hash, 1 << 62);
    }
    fixture.disk.save(&index).unwrap();

    fixture.backup("b", &files).unwrap();
    assert!(ChunkIndex::load(fixture.disk.index().unwrap()).is_ok());
    assert_eq!(fixture.restore("b").unwrap(), files);
}

#[test]
fn a_damaged_reference_count_is_caught_before_it_deletes_a_shared_chunk() {
    let mut fixture = Fixture::new();
    let files = source(&[("f", &random(3_000))]);
    fixture.backup("a", &files).unwrap();
    fixture.backup("b", &files).unwrap();

    // The only entry's count sits after the 8-byte magic, 17 header bytes and 32-byte hash.
    let bytes = fixture.disk.index.as_mut().unwrap();
    assert_eq!(bytes[8 + 17 + 32], 2);
    bytes[8 + 17 + 32] = 0;

    assert_eq!(
        ChunkIndex::load(fixture.disk.index().unwrap()).err().map(|err| err.kind),
        Some(ErrorKind::InvalidData)
    );
    assert!(fixture.delete_archive("a").is_err());
    fixture.rebuild().unwrap();
    fixture.delete_archive("a").unwrap();
    assert_eq!(fixture.restore("b").unwrap(), files);
}

#[test]
fn an_index_written_without_a_checksum_still_loads() {
    let mut fixture = Fixture::new();
    let files = source(&[("f", &random(3_000))]);
    fixture.backup("a", &files).unwrap();

    let bytes = fixture.disk.index.as_mut().unwrap();
    bytes[..8].copy_from_slice(b"DDUPIDX3");
    bytes.truncate(bytes.len() - 32);

    assert_eq!(fixture.index().len(), 1);
    fixture.backup("b", &files).unwrap();
    assert_eq!(fixture.restore("b").unwrap(), files);
}

#[test]
fn a_file_whose_chunks_fall_short_of_its_recorded_size_does_not_restore_padded() {
    let mut fixture = Fixture::new();
    fixture.backup("a", &source(&[("f", b"12345678")])).unwrap();
    let entries = fixture.disk.get_archive("a").unwrap();
    let Entry::File(file) = file_of(&entries) else { unreachable!() };
    let hashes = entry_hashes(file).unwrap();

    let archive = list_of(Ok(hashes.concat()), 12);
    fixture.disk.archives.insert("bad.ddup".to_string(), archive);

    assert!(fixture.restore("bad").is_err());
    let entries = fixture.disk.get_archive("bad").unwrap();
    assert!(fixture.read_entry_content(file_of(&entries)).is_err());
}

#[test]
fn open_or_rebuild_rebuilds_an_index_cut_short_after_its_header() {
    let mut fixture = Fixture::new();
    let files = source(&[("f", &random(20_000))]);
    fixture.backup("a", &files).unwrap();
    fixture.disk.index.as_mut().unwrap().truncate(25);

    let opened = fixture.open().map(|()| fixture.repository);
    let index = fixture.disk.index().map(|bytes| bytes.to_vec());
    if Repository::open_or_rebuild(opened, index).is_none() {
        fixture.rebuild().unwrap();
    }
    assert!(ChunkIndex::load(fixture.disk.index().unwrap()).is_ok());
    assert_eq!(fixture.restore("a").unwrap(), files);
}

#[test]
fn an_archive_whose_compressed_hash_list_is_garbage_counts_as_damaged() {
    let mut fixture = Fixture::new();
    let files = source(&[("f", b"good")]);
    fixture.backup("good", &files).unwrap();

    let archive = list_of(Err(error(ErrorKind::Other, "Unknown frame descriptor")), 4);
    fixture.disk.archives.insert("broken.ddup".to_string(), archive);

    fixture.rebuild().unwrap();
    assert_eq!(fixture.disk.unreadable_archives().unwrap(), ["broken"]);
    fixture.delete_archive("broken").unwrap();
    assert_eq!(fixture.restore("good").unwrap(), files);
}

#[test]
fn a_tree_nested_deeper_than_an_archive_can_hold_is_refused_before_publication() {
    let mut fixture = Fixture::new();
    let deep = format!("{}f", "d/".repeat(258));
    let files = source(&[(deep.as_str(), b"deep")]);

    let err = fixture.backup("a", &files).unwrap_err();
    assert_eq!(err.kind, ErrorKind::InvalidData);
    assert!(fixture.disk.archive_names().is_empty());
}

#[test]
fn rebuild_tells_the_hash_algorithm_from_a_whole_chunk_not_the_first_listed() {
    let mut fixture = Fixture::new();
    let files = source(&[("f", &random(20_000))]);
    fixture.backup("a", &files).unwrap();
    fixture.disk.index = None;

    fixture.disk.list_first = Some([0; 32]);
    fixture.rebuild().unwrap();
    assert_eq!(fixture.restore("a").unwrap(), files);
}

#[test]
fn rebuild_moves_past_a_truncated_zstd_chunk_when_telling_the_hash_algorithm() {
    let mut fixture = Fixture::new();
    fixture.disk.compression = Some(CompressionFormat::Zstd);
    fixture.backup("a", &source(&[("f", &random(40_000))])).unwrap();

    let first = fixture.disk.stored()[0];
    let Some(Slot::File(content)) = fixture.disk.chunks.get_mut(&first) else { unreachable!() };
    content.pop();
    fixture.disk.index = None;

    fixture.disk.list_first = Some(first);
    fixture.rebuild().unwrap();
    assert_eq!(fixture.repository.hash_algorithm(), HashAlgorithm::default());
}

#[test]
fn a_directory_without_read_permission_restores_with_its_mode() {
    let mut fixture = Fixture::new();
    let entry = Entry::Directory(Box::new(DirectoryEntry {
        name: "x".to_string(),
        mode: 0o100,
        owner: (0, 0),
        mtime: Timestamp { seconds: 1_500_000_000, nanos: 0 },
        entries: Vec::new(),
    }));
    let mut files = Files::new();
    fixture.restore_entry(&entry, "", &mut files, &mut None).unwrap();

    assert_eq!(files["x"].mode & 0o777, 0o100);
    assert_eq!(files["x"].mtime, Timestamp { seconds: 1_500_000_000, nanos: 0 });
}

#[test]
fn backing_up_the_repository_directory_leaves_its_own_files_out_entirely() {
    let mut fixture = Fixture::new();
    let files = source(&[
        ("data/f", &random(20_000)),
        (".ddup-bak/chunks/index", b"index"),
        (".ddup-bak/archives-restored/locked/x", b"locked"),
        (".ddup-bak-restore/staged", b"staged"),
    ]);
    fixture.backup("a", &files).unwrap();
    // An unreadable directory inside `.ddup-bak` does not fail the backup.
    let locked = [".ddup-bak", "archives-restored", "locked"];
    assert!(skips_walk_error(&Some(locked.map(|part| Some(part.to_string())).to_vec())));
    let restored = fixture.restore("a").unwrap();
    assert!(matches!(restored["data/f"].node, Node::File(_)));
    assert!(restored.keys().all(|path| !path.contains(".ddup-bak")));

    fixture.delete_archive("a").unwrap();
    fixture.clean(&mut |_, _| {}).unwrap();
    assert_eq!(fixture.stored_chunks(), 0);
}

#[test]
fn deleting_an_unreadable_archive_frees_its_chunks_through_a_recount() {
    let mut fixture = Fixture::new();
    fixture.backup("a", &source(&[("f", &random(50_000))])).unwrap();
    fixture.backup("b", &source(&[("g", &seeded(3, 50_000))])).unwrap();
    fixture.disk.archives.insert("b.ddup".to_string(), Archive::Broken(ErrorKind::InvalidData));

    // Deleting `a` is refused while `b` cannot be read.
    assert!(fixture.delete_archive("a").is_err());
    fixture.delete_archive("b").unwrap();
    fixture.delete_archive("a").unwrap();
    fixture.clean(&mut |_, _| {}).unwrap();
    assert!(fixture.disk.archive_names().is_empty());
    assert_eq!(fixture.stored_chunks(), 0);
}

#[test]
fn junk_in_the_deleting_directory_is_cleared_by_a_recount() {
    let mut fixture = Fixture::new();
    let files = source(&[("f", &random(20_000))]);
    fixture.backup("a", &files).unwrap();
    fixture
        .disk
        .deleting
        .insert("junk.ddup".to_string(), Archive::Broken(ErrorKind::UnexpectedEof));

    fixture.backup("b", &files).unwrap();
    fixture.clean(&mut |_, _| {}).unwrap();
    assert!(fixture.disk.deleting.is_empty());
    assert_eq!(fixture.restore("a").unwrap(), files);
    fixture.delete_archive("a").unwrap();
    assert_eq!(fixture.restore("b").unwrap(), files);
}

#[test]
fn an_unreadable_archive_beside_a_pending_deletion_does_not_stop_backups() {
    let mut fixture = Fixture::new();
    fixture.backup("a", &source(&[("f", &random(20_000))])).unwrap();
    fixture.backup("b", &source(&[("g", &seeded(3, 20_000))])).unwrap();
    fixture.disk.archives.insert("a.ddup".to_string(), Archive::Broken(ErrorKind::InvalidData));
    fixture.interrupt("b.ddup", "b.ddup");

    let files = source(&[("h", &seeded(4, 20_000))]);
    fixture.backup("c", &files).unwrap();
    assert_eq!(fixture.restore("c").unwrap(), files);
}

#[test]
fn clean_removes_archives_left_half_written() {
    let mut fixture = Fixture::new();
    fixture.disk.junk.push(".partial-0123456789abcdef".to_string());
    fixture.disk.junk.push(".migrate-0123456789abcdef".to_string());
    fixture.disk.junk.push(partial_file("a"));
    assert!(fixture.disk.archive_names().is_empty());

    fixture.clean(&mut |_, _| {}).unwrap();
    assert!(fixture.disk.junk.is_empty());
}

#[test]
fn a_directory_whose_name_merely_starts_like_the_repository_is_backed_up() {
    let mut fixture = Fixture::new();
    let files = source(&[(".ddup-bakup/notes.txt", b"kept")]);
    fixture.backup("a", &files).unwrap();
    assert_eq!(fixture.restore("a").unwrap(), files);
}

#[test]
fn clean_reports_each_unreferenced_chunk_once() {
    let mut fixture = Fixture::new();
    fixture.backup("a", &source(&[("f", &random(200_000))])).unwrap();
    let mut index = fixture.index();
    let chunks = index.len();
    for (hash, _) in index.iter() {
        index.set(&hash, 0);
    }
    fixture.disk.save(&index).unwrap();
    fixture.disk.archives.remove("a.ddup");

    let mut reported = 0;
    fixture.clean(&mut |_, _| reported += 1).unwrap();
    assert!(chunks > 1);
    assert_eq!(reported, chunks);
    assert_eq!(fixture.stored_chunks(), 0);
}

#[test]
fn archives_with_the_longest_allowed_names_can_be_deleted() {
    let mut fixture = Fixture::new();
    let files = source(&[("f", &random(20_000))]);
    let name = "n".repeat(250);
    fixture.backup(&name, &files).unwrap();

    fixture.delete_archive(&name).unwrap();
    assert!(fixture.disk.archive_names().is_empty());
    assert_eq!(fixture.stored_chunks(), 0);
}

#[test]
fn corrupted_chunks_fail_verification() {
    let mut fixture = Fixture::new();
    let (a, b) = (vec![b'A'; 500], vec![b'B'; 500]);
    fixture.backup("b", &source(&[("a", &a), ("b", &b)])).unwrap();

    let algorithm = HashAlgorithm::default();
    let slot_a = fixture.disk.chunks.remove(&algorithm.hash(&a)).unwrap();
    let slot_b = fixture.disk.chunks.remove(&algorithm.hash(&b)).unwrap();
    fixture.disk.chunks.insert(algorithm.hash(&a), slot_b);
    fixture.disk.chunks.insert(algorithm.hash(&b), slot_a);

    assert!(fixture.restore("b").is_err());
}

#[test]
fn truncated_index_is_rejected() {
    let mut fixture = Fixture::new();
    let files = source(&[("f", &random(20_000))]);
    fixture.backup("b", &files).unwrap();

    let bytes = fixture.disk.index.as_mut().unwrap();
    let len = bytes.len() * 3 / 4;
    bytes.truncate(len);

    assert!(ChunkIndex::load(fixture.disk.index().unwrap()).is_err());
    assert!(fixture.backup("c", &files).is_err());
}

#[test]
fn failed_backup_leaves_nothing_behind() {
    let mut fixture = Fixture::new();
    let content = random(3000);
    let files = source(&[("f", &content)]);
    let hash = HashAlgorithm::default().hash(&content);
    fixture.disk.chunks.insert(hash, Slot::Directory);

    assert!(fixture.backup("b", &files).is_err());
    assert!(fixture.disk.archive_names().is_empty());
    assert!(fixture.index().is_empty());

    fixture.disk.chunks.remove(&hash);
    fixture.backup("b", &files).unwrap();
    assert_eq!(fixture.restore("b").unwrap(), files);
}

#[test]
fn names_that_escape_their_directory_are_rejected() {
    let fixture = Fixture::new();
    assert!(fixture.disk.get_archive("../etc").is_err());
    for name in ["../evil", "a/b", "", "."] {
        assert!(validate_name(name).is_err(), "{name:?} accepted");
        assert!(Repository::archive_path(name).is_err(), "{name:?} accepted");
        assert!(Repository::restored_path(name).is_err(), "{name:?} accepted");
    }
}

#[test]
fn backslashes_in_names_roundtrip() {
    let mut fixture = Fixture::new();
    let files = source(&[
        ("system-systemd\\x2dveritysetup.slice", b"unit"),
        ("dev-disk-by\\x2duuid/entry", b"entry"),
    ]);
    fixture.backup("a", &files).unwrap();
    assert_eq!(fixture.restore("a").unwrap(), files);
}

#[test]
fn short_and_unsupported_archives_are_errors() {
    let mut fixture = Fixture::new();
    fixture.disk.archives.insert("short.ddup".to_string(), Archive::Broken(ErrorKind::UnexpectedEof));
    assert!(fixture.disk.get_archive("short").is_err());

    fixture.disk.archives.insert("v1.ddup".to_string(), Archive::Whole(1, Vec::new()));
    assert!(open(&fixture.disk.archives["v1.ddup"]).is_ok());
    let err = fixture.disk.get_archive("v1").unwrap_err();
    assert_eq!(err.kind, ErrorKind::Unsupported);
    assert_eq!(
        err.message,
        "archive v1 is in format version 1, this build reads version 2: it is migrated when the \
         repository is opened, which needs .ddup-bak/chunks/index. Restore that file and open the \
         repository again; the chunk ids in a format 1 archive cannot be resolved without it"
    );
}

#[test]
fn chunks_that_do_not_compress_are_stored_raw() {
    let mut fixture = Fixture::new();
    let (noise, text) = (random(3000), vec![b'A'; 3000]);
    let files = source(&[("noise", &noise), ("text", &text)]);
    fixture.backup("b", &files).unwrap();

    assert_eq!(fixture.chunk_of(&noise)[0], CompressionFormat::Raw.encode());
    assert_eq!(fixture.chunk_of(&text)[0], CompressionFormat::Deflate.encode());
    assert!(fixture.chunk_of(&text).len() < 100);
    assert_eq!(fixture.restore("b").unwrap(), files);
}

#[test]
fn hash_algorithm_is_chosen_at_init() {
    let mut fixture = Fixture::with_hash(HashAlgorithm::Blake3);
    fixture.disk.compression = None;
    let content = random(500);
    fixture.backup("b", &source(&[("f", &content)])).unwrap();

    assert!(fixture.disk.chunks.contains_key(&HashAlgorithm::Blake3.hash(&content)));
    fixture.open().unwrap();
    assert_eq!(fixture.repository.hash_algorithm(), HashAlgorithm::Blake3);
}

#[test]
fn zstd_chunks_roundtrip() {
    let mut fixture = Fixture::new();
    fixture.disk.compression = Some(CompressionFormat::Zstd);
    let text = b"zstd zstd zstd ".repeat(100);
    let files = source(&[("text", &text)]);
    fixture.backup("b", &files).unwrap();

    assert_eq!(fixture.chunk_of(&text)[0], CompressionFormat::Zstd.encode());
    assert_eq!(fixture.restore("b").unwrap(), files);
}

#[test]
fn rebuild_fails_rather_than_replace_an_index_it_is_not_allowed_to_read() {
    let mut fixture = Fixture::new();
    fixture.backup("a", &source(&[("f", &random(20_000))])).unwrap();
    let before = fixture.disk.index.clone();

    fixture.disk.denied = true;
    let result = fixture.rebuild();
    fixture.disk.denied = false;
    assert_eq!(result.err().map(|err| err.kind), Some(ErrorKind::PermissionDenied));
    assert_eq!(fixture.disk.index, before);
}

#[test]
fn deflate_compressed_indexes_from_older_versions_load() {
    let mut plain = b"DDUPIDX2".to_vec();
    plain.extend(4096u32.to_le_bytes());
    plain.extend(7u32.to_le_bytes());
    plain.extend(1u64.to_le_bytes());
    plain.extend([0xAB; 32]);
    plain.push(3);

    let index = ChunkIndex::load(&deflated(&plain)).unwrap();
    assert_eq!((index.chunk_size, index.max_chunk_count), (4096, 7));
    assert_eq!(index.references(&[0xAB; 32]), 3);
}

fn deflated(plain: &[u8]) -> Vec<u8> {
    let mut encoder =
        flate2::write::DeflateEncoder::new(Vec::new(), flate2::Compression::default());
    encoder.write_all(plain).unwrap();
    encoder.finish().unwrap()
}

fn leb128(mut value: u64) -> Vec<u8> {
    let mut out = Vec::new();
    while value > 0x7F {
        out.push((value & 0x7F) as u8 | 0x80);
        value >>= 7;
    }
    out.push(value as u8);
    out
}

/// A repository as versions before archive format 2 left it: BLAKE2b chunk names, a
/// Deflate-compressed index keyed by chunk id, and archives listing chunk ids as varints.
fn format_1_repository(files: &[(&str, &[Vec<u8>], CompressionFormat)]) -> Fixture {
    let mut fixture = Fixture::new();
    let mut records = Vec::new();
    let mut entries = Vec::new();
    let mut sub = DirectoryEntry {
        name: "sub".to_string(),
        mode: 0o755,
        owner: (0, 0),
        mtime: EPOCH,
        entries: Vec::new(),
    };
    for (name, chunks, compression) in files {
        let mut ids = Vec::new();
        for chunk in chunks.iter() {
            let hash = HashAlgorithm::Blake2b256.hash(chunk);
            let id = records.len() as u64 + 1;
            records.push((hash, id));
            ids.extend(leb128(id));

            let mut body = vec![compression.encode()];
            match compression {
                CompressionFormat::Raw => body.extend_from_slice(chunk),
                CompressionFormat::Deflate => body.extend(deflated(chunk)),
                other => panic!("{other:?} not used by the fixture"),
            }
            fixture.disk.chunks.insert(hash, Slot::File(body));
        }

        let file = FileEntry {
            name: name.to_string(),
            mode: 0o644,
            owner: (0, 0),
            mtime: EPOCH,
            size_real: chunks.iter().map(|c| c.len() as u64).sum(),
            body: Ok(ids),
        };
        if name.starts_with("in-sub-") {
            sub.entries.push(Entry::File(Box::new(file)));
        } else {
            entries.push(Entry::File(Box::new(file)));
        }
    }
    entries.push(Entry::Directory(Box::new(sub)));
    fixture.disk.archives.insert("old.ddup".to_string(), Archive::Whole(1, entries));

    let mut index = 0u64.to_le_bytes().to_vec();
    index.extend((CHUNK_SIZE as u32).to_le_bytes());
    index.extend(0u32.to_le_bytes());
    index.extend((records.len() as u64).to_le_bytes());
    index.extend((records.len() as u64 + 1).to_le_bytes());
    for (hash, id) in &records {
        index.extend(hash);
        index.extend(leb128(*id));
        index.extend(leb128(1));
    }
    fixture.disk.index = Some(deflated(&index));
    fixture
}

fn version(fixture: &Fixture, file: &str) -> u8 {
    open(&fixture.disk.archives[file]).unwrap().version
}

fn content(files: &Files, path: &str) -> Vec<u8> {
    match &files[path].node {
        Node::File(content) => content.clone(),
        _ => panic!("{path} is not a file"),
    }
}

#[test]
fn format_1_repositories_migrate_on_open_and_keep_deduplicating() {
    let (a, b, mut c) = (random(1000), vec![b'B'; 900], random(2000));
    c.reverse(); // `random` is deterministic, so this keeps c distinct from a
    let mut fixture = format_1_repository(&[
        ("a", std::slice::from_ref(&a), CompressionFormat::Deflate),
        ("in-sub-b", std::slice::from_ref(&b), CompressionFormat::Deflate),
        ("c", &[c[..1000].to_vec(), c[1000..].to_vec()], CompressionFormat::Raw),
    ]);
    assert_eq!(fixture.stored_chunks(), 4);

    fixture.open().unwrap();
    assert_eq!(fixture.repository.hash_algorithm(), HashAlgorithm::Blake2b256);
    assert_eq!(version(&fixture, "old.ddup"), 2);
    assert_eq!(fixture.disk.header().unwrap().version, 4);

    for entry in fixture.disk.get_archive("old").unwrap() {
        let (name, mode) = match &entry {
            Entry::File(file) => (&file.name, file.mode),
            Entry::Directory(dir) => (&dir.name, dir.mode),
            Entry::Symlink(link) => (&link.name, link.mode),
        };
        let expected = if name == "sub" { 0o755 } else { 0o644 };
        assert_eq!(mode, expected, "{name}");
    }
    let restored = fixture.restore("old").unwrap();
    assert_eq!(Repository::restored_path("old").unwrap(), ".ddup-bak/archives-restored/old");
    assert_eq!(content(&restored, "a"), a);
    assert_eq!(content(&restored, "sub/in-sub-b"), b);
    assert_eq!(content(&restored, "c"), c);

    // New backups must dedup against the migrated BLAKE2b chunks.
    fixture.open().unwrap();
    fixture.disk.compression = None;
    fixture.backup("new", &source(&[("a", &a), ("sub/in-sub-b", &b)])).unwrap();
    assert_eq!(fixture.stored_chunks(), 4);

    fixture.disk.index = None;
    fixture.rebuild().unwrap();
    assert_eq!(fixture.repository.hash_algorithm(), HashAlgorithm::Blake2b256);
    let index = fixture.index();
    assert_eq!(index.references(&HashAlgorithm::Blake2b256.hash(&a)), 2);
    assert_eq!(index.references(&HashAlgorithm::Blake2b256.hash(&c[..1000])), 1);
}

#[test]
fn a_format_1_index_ending_short_of_its_records_is_rejected_on_open() {
    let contents: Vec<Vec<u8>> = (0..8u32).map(|i| random(200 + i as usize)).collect();
    let files: Vec<_> = contents
        .iter()
        .map(|c| ("f", std::slice::from_ref(c), CompressionFormat::Deflate))
        .collect();
    let mut fixture = format_1_repository(&files);

    // Re-encode just the 32-byte header and one 34-byte record, so the stream ends cleanly.
    let mut plain = Vec::new();
    flate2::read::DeflateDecoder::new(fixture.disk.index().unwrap())
        .read_to_end(&mut plain)
        .unwrap();
    fixture.disk.index = Some(deflated(&plain[..32 + 34]));

    assert!(ChunkIndex::load_v1(fixture.disk.index().unwrap()).is_err());
    assert!(fixture.open().is_err());
    assert_eq!(version(&fixture, "old.ddup"), 1);
}

#[test]
fn a_format_1_archive_with_the_longest_name_migrates() {
    let data = random(5_000);
    let mut fixture =
        format_1_repository(&[("f", std::slice::from_ref(&data), CompressionFormat::Deflate)]);
    let name = "n".repeat(250);
    fixture.rename("old.ddup", &format!("{name}.ddup"));

    fixture.open().unwrap();
    assert!(fixture.disk.get_archive(&name).is_ok());
    assert_eq!(version(&fixture, &format!("{name}.ddup")), 2);
    assert_eq!(content(&fixture.restore(&name).unwrap(), "f"), data);
}

#[test]
fn migration_counts_references_from_the_archives_not_the_old_index() {
    let data = random(5_000);
    let mut fixture =
        format_1_repository(&[("f", std::slice::from_ref(&data), CompressionFormat::Deflate)]);
    // An older version's interrupted backup: a second archive the index never counted.
    let twin = copy_archive(&fixture.disk.archives["old.ddup"]);
    fixture.disk.archives.insert("twin.ddup".to_string(), twin);

    fixture.open().unwrap();
    fixture.delete_archive("old").unwrap();
    assert_eq!(content(&fixture.restore("twin").unwrap(), "f"), data);
}

#[test]
fn an_archive_with_a_damaged_body_blocks_deletion_but_neither_migration_nor_its_own_removal() {
    let data = random(5_000);
    let mut fixture =
        format_1_repository(&[("f", std::slice::from_ref(&data), CompressionFormat::Deflate)]);
    // A format 2 archive whose entry table reads but whose hash list is one byte.
    fixture.disk.archives.insert("bad.ddup".to_string(), list_of(Ok(vec![0u8]), 1));

    fixture.open().unwrap();
    assert_eq!(version(&fixture, "old.ddup"), 2);
    assert!(fixture.disk.get_archive("old").is_ok());
    assert_eq!(fixture.disk.unreadable_archives().unwrap(), ["bad"]);
    assert_eq!(fixture.delete_archive("old").unwrap_err().kind, ErrorKind::Unsupported);

    fixture.delete_archive("bad").unwrap();
    fixture.delete_archive("old").unwrap();
    fixture.clean(&mut |_, _| {}).unwrap();
    assert_eq!(fixture.stored_chunks(), 0);
}

#[test]
fn a_legacy_chunk_larger_than_this_version_ever_writes_still_reads() {
    let big = vec![7u8; 17 << 20];
    let mut fixture =
        format_1_repository(&[("f", std::slice::from_ref(&big), CompressionFormat::Deflate)]);

    fixture.open().unwrap();
    assert_eq!(content(&fixture.restore("old").unwrap(), "f"), big);
}

#[test]
fn a_damaged_format_1_archive_migrates_once_it_reads_again() {
    let data = random(5_000);
    let mut fixture =
        format_1_repository(&[("f", std::slice::from_ref(&data), CompressionFormat::Deflate)]);
    let intact = copy_archive(&fixture.disk.archives["old.ddup"]);
    let cut = Archive::Broken(ErrorKind::InvalidData);
    fixture.disk.archives.insert("twin.ddup".to_string(), cut);

    fixture.open().unwrap();
    assert_eq!(version(&fixture, "old.ddup"), 2);
    assert_eq!(fixture.disk.unreadable_archives().unwrap(), ["twin"]);
    assert!(fixture.disk.legacy.is_some());

    fixture.disk.archives.insert("twin.ddup".to_string(), intact);
    fixture.open().unwrap();
    assert_eq!(version(&fixture, "twin.ddup"), 2);
    assert!(fixture.disk.legacy.is_none());
    fixture.delete_archive("old").unwrap();
    assert_eq!(content(&fixture.restore("twin").unwrap(), "f"), data);
}

#[test]
fn rebuild_recovers_what_a_damaged_format_1_index_still_covers() {
    let contents: Vec<Vec<u8>> = (0..400u32).map(|i| random(200 + i as usize)).collect();
    let names: Vec<String> = (0..contents.len()).map(|i| format!("f{i}")).collect();
    let files: Vec<_> = (0..contents.len())
        .map(|i| {
            (
                names[i].as_str(),
                std::slice::from_ref(&contents[i]),
                CompressionFormat::Deflate,
            )
        })
        .collect();
    let mut fixture = format_1_repository(&files);
    let intact = fixture.disk.index().unwrap().to_vec();
    assert_eq!(fixture.stored_chunks(), contents.len());

    fixture.disk.index = Some(intact[..intact.len() * 2 / 3].to_vec());
    assert!(fixture.open().is_err());
    assert!(ChunkIndex::load_v1(fixture.disk.index().unwrap()).is_err());
    assert_eq!(version(&fixture, "old.ddup"), 1);

    // The truncated Deflate stream still yields most records, but never all.
    let (_, salvaged) = ChunkIndex::salvage_v1(fixture.disk.index().unwrap()).unwrap();
    assert!(
        salvaged.len() > contents.len() / 2 && salvaged.len() < contents.len(),
        "salvaged {} of {}",
        salvaged.len(),
        contents.len()
    );

    fixture.rebuild().unwrap();
    assert_eq!(fixture.disk.unreadable_archives().unwrap(), ["old"]);
    assert_eq!(fixture.clean(&mut |_, _| {}).unwrap_err().kind, ErrorKind::Unsupported);
    assert_eq!(fixture.stored_chunks(), contents.len());

    fixture.disk.index = Some(intact);
    fixture.open().unwrap();
    let restored = fixture.restore("old").unwrap();
    for (name, data) in names.iter().zip(&contents) {
        assert_eq!(&content(&restored, name), data, "{name}");
    }
    assert!(fixture.disk.unreadable_archives().unwrap().is_empty());
    fixture.clean(&mut |_, _| {}).unwrap();
    assert_eq!(fixture.stored_chunks(), contents.len());
}

#[test]
fn a_running_old_version_holds_off_the_migration() {
    let data = random(1000);
    let mut fixture =
        format_1_repository(&[("a", std::slice::from_ref(&data), CompressionFormat::Deflate)]);

    // Old lock file layout: mode, presence flag and pid, each padded to eight bytes.
    let mut state = vec![0u8; 48];
    state[0] = 2;
    state[8] = 1;
    state[16..24].copy_from_slice(&4242u64.to_le_bytes());
    fixture.disk.lock = state.clone();
    fixture.disk.running = Some(4242);
    let blocked = fixture.open().err().expect("migration went ahead");
    assert_eq!(blocked.kind, ErrorKind::WouldBlock);

    // A dead pid is a crash leftover and must not block.
    state[16..24].copy_from_slice(&u64::MAX.to_le_bytes());
    fixture.disk.lock = state;
    fixture.open().unwrap();
    assert_eq!(content(&fixture.restore("old").unwrap(), "a"), data);
}

#[test]
fn a_damaged_archive_does_not_block_the_migration_of_the_others() {
    let data = random(1000);
    let mut fixture =
        format_1_repository(&[("a", std::slice::from_ref(&data), CompressionFormat::Deflate)]);
    let broken = Archive::Broken(ErrorKind::InvalidData);
    fixture.disk.archives.insert("broken.ddup".to_string(), broken);

    fixture.open().unwrap();
    assert_eq!(version(&fixture, "old.ddup"), 2);
    assert_eq!(
        open(&fixture.disk.archives["broken.ddup"]).unwrap_err().kind,
        ErrorKind::InvalidData
    );
    assert_eq!(content(&fixture.restore("old").unwrap(), "a"), data);
    assert!(fixture.disk.get_archive("broken").is_err());
}

/// Lets `change` stop behind every one of its steps in turn, looks at what it left, and ends once
/// it has run through.
fn stop_everywhere(
    make: impl Fn() -> Fixture,
    change: impl Fn(&mut Fixture) -> Result<(), Error>,
    look: impl Fn(&mut Fixture),
) -> usize {
    for steps in 0.. {
        let mut fixture = make();
        fixture.disk.steps_left = Some(steps);
        let result = change(&mut fixture);
        fixture.disk.steps_left = None;
        look(&mut fixture);
        if result.is_ok() {
            return steps;
        }
    }
    unreachable!()
}

#[test]
fn a_deletion_may_stop_anywhere() {
    let (a, b) = (random(50_000), seeded(2, 50_000));
    let kept = source(&[("shared", &a)]);
    let make = || {
        let mut fixture = Fixture::new();
        fixture.backup("kept", &kept).unwrap();
        fixture.backup("old", &source(&[("f", &seeded(3, 20_000))])).unwrap();
        fixture.backup("gone", &source(&[("shared", &a), ("own", &b)])).unwrap();
        fixture.interrupt("old.ddup", "old.ddup");
        fixture
    };
    let steps = stop_everywhere(make, |fixture| fixture.delete_archive("gone"), |fixture| {
        assert_eq!(fixture.restore("kept").unwrap(), kept);
        fixture.clean(&mut |_, _| {}).unwrap();
        assert_eq!(fixture.restore("kept").unwrap(), kept);
        if fixture.disk.archive_names() == ["kept"] {
            let only_kept = fixture.stored_chunks();
            fixture.delete_archive("kept").unwrap();
            assert!(only_kept > 0 && fixture.stored_chunks() == 0);
        }
    });
    assert!(steps > 20);
    // Finishing what is pending, alone.
    stop_everywhere(make, |fixture| fixture.delete_archive("old"), |fixture| {
        assert_eq!(fixture.restore("kept").unwrap(), kept);
        fixture.clean(&mut |_, _| {}).unwrap();
        assert_eq!(fixture.disk.archive_names(), ["gone", "kept"]);
        assert_eq!(fixture.restore("kept").unwrap(), kept);
    });
    // Giving up an archive that cannot be read.
    let broken = || {
        let mut fixture = make();
        let cut = Archive::Broken(ErrorKind::InvalidData);
        fixture.disk.archives.insert("gone.ddup".to_string(), cut);
        fixture
    };
    stop_everywhere(broken, |fixture| fixture.delete_archive("gone"), |fixture| {
        assert_eq!(fixture.restore("kept").unwrap(), kept);
        if fixture.disk.archive_names() == ["kept"] {
            fixture.clean(&mut |_, _| {}).unwrap();
            assert_eq!(fixture.restore("kept").unwrap(), kept);
        }
    });
}

#[test]
fn a_migration_may_stop_anywhere() {
    let data = random(5_000);
    let make = || {
        let mut fixture =
            format_1_repository(&[("f", std::slice::from_ref(&data), CompressionFormat::Deflate)]);
        let old = copy_archive(&fixture.disk.archives["old.ddup"]);
        fixture.disk.archives.insert("twin.ddup".to_string(), old);
        fixture
    };
    let steps = stop_everywhere(make, |fixture| fixture.open(), |fixture| {
        assert!(fixture.disk.header().is_ok());
        fixture.open().unwrap();
        assert_eq!(fixture.disk.header().unwrap().version, 4);
        for name in ["old", "twin"] {
            assert_eq!(content(&fixture.restore(name).unwrap(), "f"), data);
        }
    });
    assert_eq!(steps, 8);

    // One archive is damaged at first, so the ids stay until it reads again.
    let damaged = || {
        let mut fixture = make();
        let cut = Archive::Broken(ErrorKind::InvalidData);
        fixture.disk.archives.insert("twin.ddup".to_string(), cut);
        fixture
    };
    let intact = copy_archive(&make().disk.archives["twin.ddup"]);
    let steps = stop_everywhere(damaged, |fixture| fixture.open(), |fixture| {
        assert!(fixture.disk.header().is_ok());
        fixture.open().unwrap();
        assert!(fixture.disk.legacy.is_some());
        fixture.disk.archives.insert("twin.ddup".to_string(), copy_archive(&intact));
        fixture.open().unwrap();
        assert!(fixture.disk.legacy.is_none());
        for name in ["old", "twin"] {
            assert_eq!(version(fixture, &format!("{name}.ddup")), 2);
            assert_eq!(content(&fixture.restore(name).unwrap(), "f"), data);
        }
    });
    assert_eq!(steps, 6);
}
