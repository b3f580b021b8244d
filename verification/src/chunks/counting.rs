//! Counting references: from archives, for a backup, for a deletion and for what is left over.
use crate::chunks::hash::{ChunkHash, HashAlgorithm};
use crate::chunks::index;
use crate::chunks::index::{ChunkIndex, IndexModel};
use crate::entries;
use crate::entries::{collect_hashes, Entry};
use crate::error;
use crate::error::Error;
use vstd::prelude::*;

verus! {

/// How often a hash occurs in a list.
pub open spec fn occurrences(hashes: Seq<ChunkHash>, hash: ChunkHash) -> nat
    decreases hashes.len(),
{
    if hashes.len() == 0 {
        0
    } else {
        occurrences(hashes.drop_last(), hash) + if hashes.last() == hash {
            1nat
        } else {
            0nat
        }
    }
}

/// A number of references, as far as an index counts.
pub open spec fn capped(n: nat) -> u64 {
    if n < index::MAX_REFERENCES {
        n as u64
    } else {
        index::MAX_REFERENCES
    }
}

/// The counts with one reference more for each hash of a list.
pub open spec fn counted(counts: Map<ChunkHash, u64>, hashes: Seq<ChunkHash>) -> Map<ChunkHash, u64>
    decreases hashes.len(),
{
    if hashes.len() == 0 {
        counts
    } else {
        let before = counted(counts, hashes.drop_last());
        let hash = hashes.last();
        before.insert(hash, index::raised(index::references_of(before, hash)))
    }
}

/// The counts with a zero for each hash of a list.
pub open spec fn zeroed(counts: Map<ChunkHash, u64>, hashes: Seq<ChunkHash>) -> Map<ChunkHash, u64>
    decreases hashes.len(),
{
    if hashes.len() == 0 {
        counts
    } else {
        zeroed(counts, hashes.drop_last()).insert(hashes.last(), 0)
    }
}

/// The counts with one reference less for each hash of a list. A hash whose last reference goes
/// is dropped.
pub open spec fn released(counts: Map<ChunkHash, u64>, hashes: Seq<ChunkHash>) -> Map<
    ChunkHash,
    u64,
>
    decreases hashes.len(),
{
    if hashes.len() == 0 {
        counts
    } else {
        let before = released(counts, hashes.drop_last());
        let hash = hashes.last();
        let count = index::lowered(index::references_of(before, hash));
        if count == 0 {
            before.remove(hash)
        } else {
            before.insert(hash, count)
        }
    }
}

/// Whether giving up the hash at place `i` gives up the last reference to it.
pub open spec fn drops(counts: Map<ChunkHash, u64>, hashes: Seq<ChunkHash>, i: int) -> bool {
    index::lowered(index::references_of(released(counts, hashes.take(i)), hashes[i])) == 0
}

/// Whether counts say of every chunk how often a list holds it.
pub open spec fn accurate(counts: Map<ChunkHash, u64>, hashes: Seq<ChunkHash>) -> bool {
    forall|hash: ChunkHash| #[trigger]
        index::references_of(counts, hash) == capped(occurrences(hashes, hash))
}

/// Whether no chunk is used so often that its count reached the cap.
pub open spec fn below_cap(hashes: Seq<ChunkHash>) -> bool {
    forall|hash: ChunkHash| #[trigger] occurrences(hashes, hash) < index::MAX_REFERENCES
}

/// The chunks of archives, one archive after the other. The first that cannot be read decides.
pub open spec fn archives_hashes(archives: Seq<Vec<Entry>>) -> Result<
    Seq<ChunkHash>,
    error::ErrorModel,
>
    decreases archives.len(),
{
    if archives.len() == 0 {
        Ok(Seq::empty())
    } else {
        match archives_hashes(archives.drop_last()) {
            Ok(hashes) => match entries::tree_hashes(archives.last()@) {
                Ok(more) => Ok(hashes + more),
                Err(err) => Err(err),
            },
            Err(err) => Err(err),
        }
    }
}

/// The chunks that archives list in front of the first list that cannot be read.
pub open spec fn archives_front(archives: Seq<Vec<Entry>>) -> Seq<ChunkHash>
    decreases archives.len(),
{
    if archives.len() == 0 {
        Seq::empty()
    } else if archives_hashes(archives.drop_last()) is Err {
        archives_front(archives.drop_last())
    } else {
        archives_front(archives.drop_last()) + entries::front_hashes(archives.last()@)
    }
}

/// What is reported while a list is counted: each chunk with its count right then.
pub open spec fn progress_of(counts: Map<ChunkHash, u64>, hashes: Seq<ChunkHash>) -> Seq<
    (ChunkHash, u64),
> {
    Seq::new(
        hashes.len(),
        |i: int| (hashes[i], counted(counts, hashes.take(i + 1))[hashes[i]]),
    )
}

/// Counting two lists one after the other reports what counting both reports.
proof fn progress_concat(
    counts: Map<ChunkHash, u64>,
    a: Seq<ChunkHash>,
    b: Seq<ChunkHash>,
)
    ensures
        progress_of(counts, a + b) == progress_of(counts, a) + progress_of(counted(counts, a), b),
{
    let both = progress_of(counts, a) + progress_of(counted(counts, a), b);
    assert forall|i: int| 0 <= i < a.len() + b.len() implies progress_of(counts, a + b)[i]
        == both[i] by {
        if i < a.len() {
            assert((a + b).take(i + 1) =~= a.take(i + 1));
        } else {
            let j = i - a.len();
            assert((a + b).take(i + 1) =~= a + b.take(j + 1));
            counted_concat(counts, a, b.take(j + 1));
        }
    }
    assert(progress_of(counts, a + b) =~= both);
}

pub proof fn occurrences_concat(a: Seq<ChunkHash>, b: Seq<ChunkHash>, hash: ChunkHash)
    ensures
        occurrences(a + b, hash) == occurrences(a, hash) + occurrences(b, hash),
    decreases b.len(),
{
    if b.len() == 0 {
        assert(a + b =~= a);
    } else {
        assert((a + b).drop_last() =~= a + b.drop_last());
        occurrences_concat(a, b.drop_last(), hash);
    }
}

/// A hash occurs in a list exactly if the list contains it.
pub proof fn occurrences_positive(hashes: Seq<ChunkHash>, hash: ChunkHash)
    ensures
        occurrences(hashes, hash) > 0 <==> hashes.contains(hash),
        occurrences(hashes, hash) <= hashes.len(),
    decreases hashes.len(),
{
    if hashes.len() > 0 {
        occurrences_positive(hashes.drop_last(), hash);
        if hashes.last() == hash {
            assert(hashes[hashes.len() - 1] == hash);
        } else if hashes.contains(hash) {
            let i = choose|i: int| 0 <= i < hashes.len() && hashes[i] == hash;
            assert(hashes.drop_last()[i] == hash);
        } else {
            assert forall|i: int| 0 <= i < hashes.drop_last().len() implies hashes.drop_last()[i]
                != hash by {
                assert(hashes[i] != hash);
            }
        }
    }
}

/// Counting two lists one after the other is counting both.
pub proof fn counted_concat(
    counts: Map<ChunkHash, u64>,
    a: Seq<ChunkHash>,
    b: Seq<ChunkHash>,
)
    ensures
        counted(counts, a + b) == counted(counted(counts, a), b),
    decreases b.len(),
{
    if b.len() == 0 {
        assert(a + b =~= a);
    } else {
        assert((a + b).drop_last() =~= a + b.drop_last());
        counted_concat(counts, a, b.drop_last());
    }
}

/// Counting a list adds, for each chunk, how often the list holds it.
pub proof fn counted_references(
    counts: Map<ChunkHash, u64>,
    hashes: Seq<ChunkHash>,
    hash: ChunkHash,
)
    requires
        index::references_of(counts, hash) <= index::MAX_REFERENCES,
    ensures
        index::references_of(counted(counts, hashes), hash) == capped(
            index::references_of(counts, hash) as nat + occurrences(hashes, hash),
        ),
        counted(counts, hashes).contains_key(hash) <==> counts.contains_key(hash)
            || hashes.contains(hash),
    decreases hashes.len(),
{
    if hashes.len() > 0 {
        counted_references(counts, hashes.drop_last(), hash);
        occurrences_positive(hashes, hash);
        occurrences_positive(hashes.drop_last(), hash);
    }
}

/// Zeroing a list gives each chunk of it a zero count and leaves the others.
pub proof fn zeroed_references(counts: Map<ChunkHash, u64>, hashes: Seq<ChunkHash>, hash: ChunkHash)
    ensures
        zeroed(counts, hashes).contains_key(hash) <==> counts.contains_key(hash) || hashes.contains(
            hash,
        ),
        hashes.contains(hash) ==> zeroed(counts, hashes)[hash] == 0,
        !hashes.contains(hash) ==> zeroed(counts, hashes)[hash] == counts[hash],
    decreases hashes.len(),
{
    if hashes.len() > 0 {
        zeroed_references(counts, hashes.drop_last(), hash);
        occurrences_positive(hashes, hash);
        occurrences_positive(hashes.drop_last(), hash);
    }
}

/// Giving up a list takes away, for each chunk, as many references as the list holds, and drops
/// the chunks of the list that then have none.
pub proof fn released_references(
    counts: Map<ChunkHash, u64>,
    hashes: Seq<ChunkHash>,
    hash: ChunkHash,
)
    ensures
        index::references_of(released(counts, hashes), hash) == if index::references_of(
            counts,
            hash,
        ) > occurrences(hashes, hash) {
            index::references_of(counts, hash) - occurrences(hashes, hash)
        } else {
            0
        },
        !hashes.contains(hash) ==> released(counts, hashes).contains_key(hash)
            == counts.contains_key(hash),
        hashes.contains(hash) ==> released(counts, hashes).contains_key(hash) == (
        index::references_of(released(counts, hashes), hash) > 0),
    decreases hashes.len(),
{
    if hashes.len() > 0 {
        released_references(counts, hashes.drop_last(), hash);
        occurrences_positive(hashes, hash);
        occurrences_positive(hashes.drop_last(), hash);
    }
}

/// An index that was counted from nothing but a list of archives is accurate, whatever was in
/// storage.
pub proof fn counting_is_accurate(stored: Seq<ChunkHash>, hashes: Seq<ChunkHash>)
    ensures
        accurate(counted(zeroed(Map::empty(), stored), hashes), hashes),
        forall|hash: ChunkHash| #[trigger]
            counted(zeroed(Map::empty(), stored), hashes).contains_key(hash) <==> stored.contains(
                hash,
            ) || hashes.contains(hash),
{
    let start = zeroed(Map::empty(), stored);
    assert forall|hash: ChunkHash| #[trigger]
        index::references_of(counted(start, hashes), hash) == capped(
            occurrences(hashes, hash),
        ) by {
        zeroed_references(Map::empty(), stored, hash);
        counted_references(start, hashes, hash);
    }
    assert forall|hash: ChunkHash| #[trigger]
        counted(start, hashes).contains_key(hash) <==> stored.contains(hash) || hashes.contains(
            hash,
        ) by {
        zeroed_references(Map::empty(), stored, hash);
        counted_references(start, hashes, hash);
    }
}

/// A backup keeps an accurate index accurate: counting the new archive's chunks gives what
/// counting all archives from the start would give.
pub proof fn backup_keeps_accuracy(
    counts: Map<ChunkHash, u64>,
    live: Seq<ChunkHash>,
    new: Seq<ChunkHash>,
)
    requires
        accurate(counts, live),
    ensures
        accurate(counted(counts, new), live + new),
{
    assert forall|hash: ChunkHash| #[trigger]
        index::references_of(counted(counts, new), hash) == capped(
            occurrences(live + new, hash),
        ) by {
        assert(index::references_of(counts, hash) == capped(occurrences(live, hash)));
        counted_references(counts, new, hash);
        occurrences_concat(live, new, hash);
    }
}

/// A deletion keeps an accurate index accurate for the archives that remain, in whatever order
/// they are counted, and drops from it exactly the chunks of the deleted archive that no remaining
/// archive uses.
pub proof fn deletion_keeps_accuracy(
    counts: Map<ChunkHash, u64>,
    live: Seq<ChunkHash>,
    gone: Seq<ChunkHash>,
    rest: Seq<ChunkHash>,
)
    requires
        accurate(counts, live),
        below_cap(live),
        forall|hash: ChunkHash| #[trigger]
            occurrences(live, hash) == occurrences(gone, hash) + occurrences(rest, hash),
    ensures
        accurate(released(counts, gone), rest),
        forall|hash: ChunkHash| #[trigger]
            gone.contains(hash) ==> released(counts, gone).contains_key(hash) == rest.contains(
                hash,
            ),
{
    assert forall|hash: ChunkHash| #[trigger]
        index::references_of(released(counts, gone), hash) == capped(
            occurrences(rest, hash),
        ) by {
        assert(index::references_of(counts, hash) == capped(occurrences(live, hash)));
        assert(occurrences(live, hash) < index::MAX_REFERENCES);
        released_references(counts, gone, hash);
    }
    assert forall|hash: ChunkHash| #[trigger] gone.contains(hash) implies released(
        counts,
        gone,
    ).contains_key(hash) == rest.contains(hash) by {
        released_references(counts, gone, hash);
        assert(index::references_of(released(counts, gone), hash) == capped(
            occurrences(rest, hash),
        ));
        occurrences_positive(rest, hash);
    }
}

/// A deletion marks a chunk to be deleted exactly if no remaining archive uses it, and then once:
/// where the deleted archive lists it last.
pub proof fn deletion_drops_once(
    counts: Map<ChunkHash, u64>,
    live: Seq<ChunkHash>,
    gone: Seq<ChunkHash>,
    rest: Seq<ChunkHash>,
    i: int,
)
    requires
        accurate(counts, live),
        below_cap(live),
        forall|hash: ChunkHash| #[trigger]
            occurrences(live, hash) == occurrences(gone, hash) + occurrences(rest, hash),
        0 <= i < gone.len(),
    ensures
        drops(counts, gone, i) <==> !rest.contains(gone[i]) && !gone.skip(i + 1).contains(gone[i]),
{
    let hash = gone[i];
    let front = gone.take(i);
    let back = gone.skip(i + 1);
    assert(gone =~= front.push(hash) + back);
    occurrences_concat(front.push(hash), back, hash);
    assert(front.push(hash).drop_last() =~= front);
    assert(index::references_of(counts, hash) == capped(occurrences(live, hash)));
    assert(occurrences(live, hash) < index::MAX_REFERENCES);
    released_references(counts, front, hash);
    occurrences_positive(rest, hash);
    occurrences_positive(back, hash);
}

/// Giving up what was counted brings every count back.
pub proof fn release_undoes_counting(
    counts: Map<ChunkHash, u64>,
    hashes: Seq<ChunkHash>,
    hash: ChunkHash,
)
    requires
        index::references_of(counts, hash) + occurrences(hashes, hash) < index::MAX_REFERENCES,
    ensures
        index::references_of(released(counted(counts, hashes), hashes), hash)
            == index::references_of(counts, hash),
{
    counted_references(counts, hashes, hash);
    released_references(counted(counts, hashes), hashes, hash);
}

impl ChunkIndex {
    /// Counts one reference more for each hash, and says what each count then is.
    pub fn reference_all(&mut self, hashes: &Vec<ChunkHash>) -> (progress: Vec<(ChunkHash, u64)>)
        ensures
            final(self)@ == index::with_counts(old(self)@, counted(old(self)@.counts, hashes@)),
            progress@.len() == hashes@.len(),
            forall|i: int|
                0 <= i < hashes@.len() ==> #[trigger] progress@[i] == (
                    hashes@[i],
                    counted(old(self)@.counts, hashes@.take(i + 1))[hashes@[i]],
                ),
    {
        let mut progress: Vec<(ChunkHash, u64)> = Vec::new();
        let mut i: usize = 0;
        assert(hashes@.take(0) =~= Seq::empty());
        while i < hashes.len()
            invariant
                i <= hashes@.len(),
                self@ == index::with_counts(
                    old(self)@,
                    counted(old(self)@.counts, hashes@.take(i as int)),
                ),
                progress@.len() == i,
                forall|j: int|
                    0 <= j < i ==> #[trigger] progress@[j] == (
                        hashes@[j],
                        counted(old(self)@.counts, hashes@.take(j + 1))[hashes@[j]],
                    ),
            decreases hashes@.len() - i,
        {
            let hash = hashes[i];
            let count: u64 = self.reference(&hash);
            progress.push((hash, count));
            assert(hashes@.take(i + 1).drop_last() =~= hashes@.take(i as int));
            i = i + 1;
        }
        assert(hashes@.take(i as int) =~= hashes@);
        progress
    }

    /// Gives a zero count to chunks that are in storage.
    pub fn zero_all(&mut self, hashes: &Vec<ChunkHash>)
        ensures
            final(self)@ == index::with_counts(old(self)@, zeroed(old(self)@.counts, hashes@)),
    {
        let mut i: usize = 0;
        assert(hashes@.take(0) =~= Seq::empty());
        while i < hashes.len()
            invariant
                i <= hashes@.len(),
                self@ == index::with_counts(
                    old(self)@,
                    zeroed(old(self)@.counts, hashes@.take(i as int)),
                ),
            decreases hashes@.len() - i,
        {
            let hash = hashes[i];
            self.set(&hash, 0);
            assert(hashes@.take(i + 1).drop_last() =~= hashes@.take(i as int));
            i = i + 1;
        }
        assert(hashes@.take(i as int) =~= hashes@);
    }

    /// Counts the chunks of an archive's entries, and appends to `progress` what each count then
    /// is. Where a chunk list cannot be read, those in front of it are counted.
    pub fn count_references(
        &mut self,
        entries: &Vec<Entry>,
        progress: &mut Vec<(ChunkHash, u64)>,
    ) -> (result: Result<(), Error>)
        ensures
            final(self)@ == index::with_counts(
                old(self)@,
                counted(old(self)@.counts, entries::front_hashes(entries@)),
            ),
            final(progress)@ == old(progress)@ + progress_of(
                old(self)@.counts,
                entries::front_hashes(entries@),
            ),
            match (result, entries::tree_hashes(entries@)) {
                (Ok(()), Ok(hashes)) => hashes == entries::front_hashes(entries@),
                (Err(err), Err(err_spec)) => err@ == err_spec,
                _ => false,
            },
    {
        let mut hashes: Vec<ChunkHash> = Vec::new();
        let result = collect_hashes(entries, &mut hashes);
        assert(hashes@ =~= entries::front_hashes(entries@));
        let mut more = self.reference_all(&hashes);
        assert(more@ =~= progress_of(old(self)@.counts, hashes@));
        progress.append(&mut more);
        proof {
            if result is Ok {
                entries::front_is_all(entries@);
            }
        }
        result
    }

    /// Recounts references from `archives`, and appends to `progress` what each count then is.
    /// Unreferenced chunks in storage get a count of zero so that cleaning deletes them.
    pub fn rebuild(
        chunk_size: usize,
        max_chunk_count: usize,
        hash_algorithm: HashAlgorithm,
        stored: &Vec<ChunkHash>,
        archives: &Vec<Vec<Entry>>,
        progress: &mut Vec<(ChunkHash, u64)>,
    ) -> (rebuilt: Result<Self, Error>)
        ensures
            final(progress)@ == old(progress)@ + progress_of(
                zeroed(Map::empty(), stored@),
                archives_front(archives@),
            ),
            match (rebuilt, archives_hashes(archives@)) {
                (Ok(rebuilt), Ok(hashes)) => rebuilt@ == (IndexModel {
                    chunk_size,
                    max_chunk_count,
                    hash_algorithm,
                    counts: counted(zeroed(Map::empty(), stored@), hashes),
                }),
                (Err(err), Err(err_spec)) => err@ == err_spec,
                _ => false,
            },
            rebuilt is Ok ==> forall|hash: ChunkHash| #[trigger]
                rebuilt->Ok_0@.counts.contains_key(hash) <==> uses_of(archives@, hash) > 0
                    || stored@.contains(hash),
            rebuilt is Ok ==> forall|hash: ChunkHash|
                uses_of(archives@, hash) > 0 || stored@.contains(hash) ==> #[trigger]
                rebuilt->Ok_0@.counts[hash] == if uses_of(archives@, hash)
                    < 0x4000_0000_0000_0000 {
                    uses_of(archives@, hash)
                } else {
                    0x4000_0000_0000_0000
                },
    {
        let mut index = ChunkIndex::new(chunk_size, max_chunk_count, hash_algorithm);
        index.zero_all(stored);
        let ghost start = index@;
        let mut i: usize = 0;
        proof {
            assert(archives@.take(0) =~= Seq::empty());
            assert(progress_of(start.counts, Seq::empty()) =~= Seq::empty());
            assert(progress@ + Seq::<(ChunkHash, u64)>::empty() =~= progress@);
        }
        while i < archives.len()
            invariant
                i <= archives@.len(),
                archives_hashes(archives@.take(i as int)) is Ok,
                archives_front(archives@.take(i as int)) == archives_hashes(
                    archives@.take(i as int),
                )->Ok_0,
                index@ == index::with_counts(
                    start,
                    counted(start.counts, archives_hashes(archives@.take(i as int))->Ok_0),
                ),
                progress@ == old(progress)@ + progress_of(
                    start.counts,
                    archives_front(archives@.take(i as int)),
                ),
                start.counts == zeroed(Map::empty(), stored@),
            decreases archives@.len() - i,
        {
            let ghost done = archives_hashes(archives@.take(i as int))->Ok_0;
            let ghost front = entries::front_hashes(archives@[i as int]@);
            proof {
                assert(archives@.take(i + 1).drop_last() =~= archives@.take(i as int));
                assert(archives@.take(i + 1).last() == archives@[i as int]);
                counted_concat(start.counts, done, front);
                progress_concat(start.counts, done, front);
            }
            let result = index.count_references(&archives[i], progress);
            assert(progress@ =~= old(progress)@ + progress_of(start.counts, done + front));
            if let Err(err) = result {
                proof {
                    error_of_prefix(archives@, i + 1);
                }
                return Err(err);
            }
            i = i + 1;
        }
        assert(archives@.take(i as int) =~= archives@);
        proof {
            assert forall|hash: ChunkHash| #[trigger]
                index@.counts.contains_key(hash) <==> uses_of(archives@, hash) > 0
                    || stored@.contains(hash) by {
                rebuilt_counts_are_the_uses(stored@, archives@, hash);
            }
            assert forall|hash: ChunkHash|
                uses_of(archives@, hash) > 0 || stored@.contains(hash) implies #[trigger]
                index@.counts[hash] == if uses_of(archives@, hash) < 0x4000_0000_0000_0000 {
                    uses_of(archives@, hash)
                } else {
                    0x4000_0000_0000_0000
                } by {
                rebuilt_counts_are_the_uses(stored@, archives@, hash);
            }
        }
        Ok(index)
    }

    /// Gives up the chunks of an archive. Says for each whether its last reference went, and with
    /// it the chunk.
    pub fn release(&mut self, hashes: &Vec<ChunkHash>) -> (deletions: Vec<(ChunkHash, bool)>)
        ensures
            final(self)@ == index::with_counts(old(self)@, released(old(self)@.counts, hashes@)),
            deletions@.len() == hashes@.len(),
            forall|i: int|
                0 <= i < hashes@.len() ==> #[trigger] deletions@[i] == (
                    hashes@[i],
                    drops(old(self)@.counts, hashes@, i),
                ),
    {
        let mut deletions: Vec<(ChunkHash, bool)> = Vec::new();
        let mut i: usize = 0;
        assert(hashes@.take(0) =~= Seq::empty());
        while i < hashes.len()
            invariant
                i <= hashes@.len(),
                self@ == index::with_counts(
                    old(self)@,
                    released(old(self)@.counts, hashes@.take(i as int)),
                ),
                deletions@.len() == i,
                forall|j: int|
                    0 <= j < i ==> #[trigger] deletions@[j] == (
                        hashes@[j],
                        drops(old(self)@.counts, hashes@, j),
                    ),
            decreases hashes@.len() - i,
        {
            let hash = hashes[i];
            let ghost before = self@.counts;
            let deleted = self.dereference(&hash) == 0;
            if deleted {
                self.remove(&hash);
            }
            deletions.push((hash, deleted));
            proof {
                assert(hashes@.take(i + 1).drop_last() =~= hashes@.take(i as int));
                assert(self@.counts =~= released(old(self)@.counts, hashes@.take(i + 1)));
            }
            i = i + 1;
        }
        assert(hashes@.take(i as int) =~= hashes@);
        deletions
    }
}

/// An error among the first archives is the error of all of them.
proof fn error_of_prefix(archives: Seq<Vec<Entry>>, n: int)
    requires
        0 <= n <= archives.len(),
        archives_hashes(archives.take(n)) is Err,
    ensures
        archives_hashes(archives) == archives_hashes(archives.take(n)),
        archives_front(archives) == archives_front(archives.take(n)),
    decreases archives.len() - n,
{
    if n < archives.len() {
        assert(archives.take(n + 1).drop_last() =~= archives.take(n));
        error_of_prefix(archives, n + 1);
    } else {
        assert(archives.take(n) =~= archives);
    }
}

/// How often a hash occurs in a list is how many of its places hold it.
pub proof fn occurrences_is_multiplicity(hashes: Seq<ChunkHash>, hash: ChunkHash)
    ensures
        occurrences(hashes, hash) == hashes.to_multiset().count(hash),
    decreases hashes.len(),
{
    broadcast use vstd::seq_lib::group_to_multiset_ensures;

    if hashes.len() > 0 {
        occurrences_is_multiplicity(hashes.drop_last(), hash);
        assert(hashes =~= hashes.drop_last().push(hashes.last()));
    } else {
        assert(hashes =~= Seq::empty());
    }
}

/// Counting a list adds to each chunk as many references as the list has places for it, up to the
/// highest count, and makes no other chunk known.
pub proof fn every_place_is_counted(
    counts: Map<ChunkHash, u64>,
    hashes: Seq<ChunkHash>,
    hash: ChunkHash,
)
    requires
        counts.contains_key(hash) ==> counts[hash] <= 0x4000_0000_0000_0000,
    ensures
        ({
            let before = if counts.contains_key(hash) {
                counts[hash] as int
            } else {
                0
            };
            let sum = before + hashes.to_multiset().count(hash);
            let after = counted(counts, hashes);
            &&& after.contains_key(hash) <==> counts.contains_key(hash) || hashes.contains(hash)
            &&& after.contains_key(hash) ==> after[hash] == if sum < 0x4000_0000_0000_0000 {
                sum
            } else {
                0x4000_0000_0000_0000
            }
        }),
{
    occurrences_is_multiplicity(hashes, hash);
    counted_references(counts, hashes, hash);
}

/// What is reported for each place of a list is its chunk, with the references that the chunk has
/// once the places up to this one are counted.
pub proof fn every_place_is_reported(counts: Map<ChunkHash, u64>, hashes: Seq<ChunkHash>, i: int)
    requires
        0 <= i < hashes.len(),
        counts.contains_key(hashes[i]) ==> counts[hashes[i]] <= 0x4000_0000_0000_0000,
    ensures
        ({
            let hash = hashes[i];
            let before = if counts.contains_key(hash) {
                counts[hash] as int
            } else {
                0
            };
            let sum = before + hashes.take(i + 1).to_multiset().count(hash);
            &&& progress_of(counts, hashes).len() == hashes.len()
            &&& progress_of(counts, hashes)[i].0 == hash
            &&& progress_of(counts, hashes)[i].1 == if sum < 0x4000_0000_0000_0000 {
                sum
            } else {
                0x4000_0000_0000_0000
            }
        }),
{
    let front = hashes.take(i + 1);
    assert(front[i] == hashes[i]);
    assert(front.contains(hashes[i]));
    every_place_is_counted(counts, front, hashes[i]);
}

/// Giving up a list takes from each chunk as many references as the list has places for it. A
/// chunk of the list that then has none is not known any more; no other chunk is touched.
pub proof fn every_place_is_given_up(
    counts: Map<ChunkHash, u64>,
    hashes: Seq<ChunkHash>,
    hash: ChunkHash,
)
    ensures
        ({
            let before = if counts.contains_key(hash) {
                counts[hash] as int
            } else {
                0
            };
            let left = before - hashes.to_multiset().count(hash);
            let after = released(counts, hashes);
            &&& hashes.contains(hash) ==> (after.contains_key(hash) <==> left > 0)
            &&& hashes.contains(hash) && left > 0 ==> after[hash] == left
            &&& !hashes.contains(hash) ==> (after.contains_key(hash) <==> counts.contains_key(hash))
            &&& !hashes.contains(hash) && counts.contains_key(hash) ==> after[hash] == counts[hash]
        }),
{
    occurrences_is_multiplicity(hashes, hash);
    occurrences_positive(hashes, hash);
    released_references(counts, hashes, hash);
}

/// A place of a list gives up the last reference to its chunk exactly if the places up to it are
/// as many as the references that the chunk had, or more.
pub proof fn last_reference_goes(counts: Map<ChunkHash, u64>, hashes: Seq<ChunkHash>, i: int)
    requires
        0 <= i < hashes.len(),
    ensures
        ({
            let hash = hashes[i];
            let before = if counts.contains_key(hash) {
                counts[hash] as int
            } else {
                0
            };
            drops(counts, hashes, i) <==> before <= hashes.take(i + 1).to_multiset().count(hash)
        }),
{
    let hash = hashes[i];
    let front = hashes.take(i);
    assert(hashes.take(i + 1).drop_last() =~= front);
    occurrences_is_multiplicity(hashes.take(i + 1), hash);
    released_references(counts, front, hash);
}

/// Zeroing a list makes each of its chunks known with no references, and touches no other chunk.
pub proof fn every_place_is_zeroed(
    counts: Map<ChunkHash, u64>,
    hashes: Seq<ChunkHash>,
    hash: ChunkHash,
)
    ensures
        ({
            let after = zeroed(counts, hashes);
            &&& hashes.contains(hash) ==> after.contains_key(hash) && after[hash] == 0
            &&& !hashes.contains(hash) ==> (after.contains_key(hash) <==> counts.contains_key(hash))
            &&& !hashes.contains(hash) && counts.contains_key(hash) ==> after[hash] == counts[hash]
        }),
{
    zeroed_references(counts, hashes, hash);
}

/// What archives are made of, archive by archive. The first that cannot be read decides, and what
/// stands in front of its unreadable list is counted.
pub proof fn archives_add_up(front: Seq<Vec<Entry>>, last: Vec<Entry>)
    ensures
        archives_hashes(Seq::empty()) == Ok::<_, error::ErrorModel>(Seq::<ChunkHash>::empty()),
        archives_front(Seq::empty()) == Seq::<ChunkHash>::empty(),
        archives_hashes(front) is Err ==> archives_hashes(front.push(last)) == archives_hashes(
            front,
        ) && archives_front(front.push(last)) == archives_front(front),
        archives_hashes(front) is Ok ==> archives_front(front.push(last)) == archives_front(front)
            + entries::front_hashes(last@),
        archives_hashes(front) is Ok ==> archives_hashes(front.push(last))
            == match entries::tree_hashes(last@) {
            Ok(more) => Ok(archives_hashes(front)->Ok_0 + more),
            Err(err) => Err(err),
        },
{
    assert(front.push(last).drop_last() =~= front);
}

/// How often the files of archives use a chunk, all of them together.
pub open spec fn uses_of(archives: Seq<Vec<Entry>>, hash: ChunkHash) -> nat
    decreases archives.len(),
{
    if archives.len() == 0 {
        0
    } else {
        uses_of(archives.drop_last(), hash) + entries::uses(
            entries::files_in(archives.last()@),
            hash,
        )
    }
}

/// The chunks of archives are those of their files, each as often as the files use it.
pub proof fn archives_hold_every_use(archives: Seq<Vec<Entry>>, hash: ChunkHash)
    requires
        archives_hashes(archives) is Ok,
    ensures
        archives_hashes(archives)->Ok_0.to_multiset().count(hash) == uses_of(archives, hash),
    decreases archives.len(),
{
    broadcast use vstd::seq_lib::group_to_multiset_ensures;

    if archives.len() > 0 {
        archives_hold_every_use(archives.drop_last(), hash);
        entries::every_use_is_counted(archives.last()@, hash);
        vstd::seq_lib::lemma_multiset_commutative(
            archives_hashes(archives.drop_last())->Ok_0,
            entries::tree_hashes(archives.last()@)->Ok_0,
        );
    }
}

/// A rebuilt index counts every chunk as often as the files of the archives use it, whatever was
/// in storage, up to the highest count. A chunk that no file uses is known, with a zero, exactly if
/// it is in storage.
pub proof fn rebuilt_counts_are_the_uses(
    stored: Seq<ChunkHash>,
    archives: Seq<Vec<Entry>>,
    hash: ChunkHash,
)
    requires
        archives_hashes(archives) is Ok,
    ensures
        ({
            let counts = counted(
                zeroed(Map::empty(), stored),
                archives_hashes(archives)->Ok_0,
            );
            let used = uses_of(archives, hash);
            &&& counts.contains_key(hash) <==> used > 0 || stored.contains(hash)
            &&& counts.contains_key(hash) ==> counts[hash] == if used < 0x4000_0000_0000_0000 {
                used
            } else {
                0x4000_0000_0000_0000
            }
        }),
{
    let all = archives_hashes(archives)->Ok_0;
    archives_hold_every_use(archives, hash);
    every_place_is_zeroed(Map::empty(), stored, hash);
    every_place_is_counted(zeroed(Map::empty(), stored), all, hash);
    occurrences_is_multiplicity(all, hash);
    occurrences_positive(all, hash);
}

/// No chunk of a file of an archive is counted zero by a rebuild, so cleaning deletes none.
pub proof fn rebuilt_index_knows_every_chunk(
    stored: Seq<ChunkHash>,
    archives: Seq<Vec<Entry>>,
    a: int,
    i: int,
    k: int,
)
    requires
        archives_hashes(archives) is Ok,
        0 <= a < archives.len(),
        0 <= i < entries::files_in(archives[a]@).len(),
        0 <= k < entries::file_hashes(entries::files_in(archives[a]@)[i])->Ok_0.len(),
    ensures
        ({
            let counts = counted(
                zeroed(Map::empty(), stored),
                archives_hashes(archives)->Ok_0,
            );
            let hash = entries::file_hashes(entries::files_in(archives[a]@)[i])->Ok_0[k];
            counts.contains_key(hash) && counts[hash] > 0
        }),
{
    let hash = entries::file_hashes(entries::files_in(archives[a]@)[i])->Ok_0[k];
    readable_archive(archives, a);
    entries::no_chunk_of_a_file_is_missed(archives[a]@, i, k);
    entries::every_use_is_counted(archives[a]@, hash);
    occurrences_is_multiplicity(entries::tree_hashes(archives[a]@)->Ok_0, hash);
    occurrences_positive(entries::tree_hashes(archives[a]@)->Ok_0, hash);
    uses_of_one(archives, a, hash);
    rebuilt_counts_are_the_uses(stored, archives, hash);
}

proof fn readable_archive(archives: Seq<Vec<Entry>>, a: int)
    requires
        archives_hashes(archives) is Ok,
        0 <= a < archives.len(),
    ensures
        entries::tree_hashes(archives[a]@) is Ok,
    decreases archives.len(),
{
    if a + 1 < archives.len() {
        assert(archives.drop_last()[a] == archives[a]);
        readable_archive(archives.drop_last(), a);
    }
}

proof fn uses_of_one(archives: Seq<Vec<Entry>>, a: int, hash: ChunkHash)
    requires
        0 <= a < archives.len(),
    ensures
        uses_of(archives, hash) >= entries::uses(entries::files_in(archives[a]@), hash),
    decreases archives.len(),
{
    if a + 1 < archives.len() {
        assert(archives.drop_last()[a] == archives[a]);
        uses_of_one(archives.drop_last(), a, hash);
    }
}

/// Counts are kept up to the highest one.
pub proof fn counts_are_capped(n: nat)
    ensures
        capped(n) == if n < 0x4000_0000_0000_0000 {
            n
        } else {
            0x4000_0000_0000_0000
        },
{
}

} // verus!
