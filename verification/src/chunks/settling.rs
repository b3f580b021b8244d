//! What is left over: the chunks of interrupted deletions, and chunks that nothing references.
use crate::chunks::counting;
use crate::chunks::hash::ChunkHash;
use crate::chunks::index;
use crate::chunks::index::ChunkIndex;
use vstd::prelude::*;

verus! {

/// Counts with the chunks of interrupted deletions counted afresh: each has as many references as
/// the live archives hold, and is gone where that is none. The other chunks are as they were.
pub open spec fn settled(
    counts: Map<ChunkHash, u64>,
    pending: Seq<ChunkHash>,
    live: Seq<ChunkHash>,
) -> Map<ChunkHash, u64> {
    Map::new(
        |hash: ChunkHash|
            if pending.contains(hash) {
                live.contains(hash)
            } else {
                counts.contains_key(hash)
            },
        |hash: ChunkHash|
            if pending.contains(hash) {
                counting::occurrences(live, hash) as u64
            } else {
                counts[hash]
            },
    )
}

/// Whether a hash is among the first `n` entries.
spec fn listed(entries: Seq<(ChunkHash, u64)>, n: int, hash: ChunkHash) -> bool {
    exists|j: int| 0 <= j < n && (#[trigger] entries[j]).0 == hash
}

/// The chunks of a list that the counts do not know.
pub open spec fn orphans_in(stored: Seq<ChunkHash>, counts: Map<ChunkHash, u64>) -> Seq<ChunkHash> {
    stored.filter(|hash: ChunkHash| !counts.contains_key(hash))
}

/// Settling makes the index accurate again, if it was accurate for every chunk that no interrupted
/// deletion touched.
pub proof fn settling_restores_accuracy(
    counts: Map<ChunkHash, u64>,
    pending: Seq<ChunkHash>,
    live: Seq<ChunkHash>,
)
    requires
        counting::below_cap(live),
        forall|hash: ChunkHash|
            !pending.contains(hash) ==> #[trigger] index::references_of(counts, hash)
                == counting::capped(counting::occurrences(live, hash)),
    ensures
        counting::accurate(settled(counts, pending, live), live),
{
    let after = settled(counts, pending, live);
    assert forall|hash: ChunkHash| #[trigger]
        index::references_of(after, hash) == counting::capped(
            counting::occurrences(live, hash),
        ) by {
        counting::occurrences_positive(live, hash);
        assert(counting::occurrences(live, hash) < index::MAX_REFERENCES);
        if !pending.contains(hash) {
            assert(index::references_of(counts, hash) == counting::capped(
                counting::occurrences(live, hash),
            ));
        }
    }
}

/// A deletion that was interrupted before its index was saved is finished by settling: the index
/// that still counts the deleted archive becomes one that counts the remaining archives.
pub proof fn settling_finishes_a_deletion(
    counts: Map<ChunkHash, u64>,
    gone: Seq<ChunkHash>,
    rest: Seq<ChunkHash>,
)
    requires
        counting::accurate(counts, gone + rest),
        counting::below_cap(rest),
    ensures
        counting::accurate(settled(counts, gone, rest), rest),
{
    assert forall|hash: ChunkHash| !gone.contains(hash) implies #[trigger] index::references_of(
        counts,
        hash,
    ) == counting::capped(counting::occurrences(rest, hash)) by {
        counting::occurrences_concat(gone, rest, hash);
        counting::occurrences_positive(gone, hash);
    }
    settling_restores_accuracy(counts, gone, rest);
}

/// Cleaning an accurate index deletes no chunk that a live archive uses.
pub proof fn cleaning_spares_live_chunks(
    counts: Map<ChunkHash, u64>,
    live: Seq<ChunkHash>,
    stored: Seq<ChunkHash>,
    hash: ChunkHash,
)
    requires
        counting::accurate(counts, live),
        live.contains(hash),
    ensures
        counts.contains_key(hash) && counts[hash] > 0,
        !orphans_in(stored, counts).contains(hash),
{
    counting::occurrences_positive(live, hash);
    assert(index::references_of(counts, hash) == counting::capped(
        counting::occurrences(live, hash),
    ));
    let known = |hash: ChunkHash| !counts.contains_key(hash);
    if orphans_in(stored, counts).contains(hash) {
        let kept = stored.filter(known);
        let i = choose|i: int| 0 <= i < kept.len() && kept[i] == hash;
        assert(known(kept[i]));
    }
}

impl ChunkIndex {
    /// Counts how often `live` holds each chunk of `pending`.
    fn tally(&self, pending: &Vec<ChunkHash>, live: &Vec<ChunkHash>) -> (tally: ChunkIndex)
        ensures
            forall|hash: ChunkHash| #[trigger]
                tally@.counts.contains_key(hash) <==> pending@.contains(hash),
            forall|hash: ChunkHash|
                pending@.contains(hash) ==> #[trigger] tally@.counts[hash]
                    == counting::occurrences(live@, hash),
    {
        let mut tally = ChunkIndex::new(0, 0, self.algorithm());
        tally.zero_all(pending);
        proof {
            assert forall|hash: ChunkHash| #[trigger]
                tally@.counts.contains_key(hash) <==> pending@.contains(hash) by {
                counting::zeroed_references(Map::empty(), pending@, hash);
            }
            assert forall|hash: ChunkHash| pending@.contains(hash) implies #[trigger]
                tally@.counts[hash] == 0 by {
                counting::zeroed_references(Map::empty(), pending@, hash);
            }
        }
        let mut i: usize = 0;
        assert(live@.take(0) =~= Seq::empty());
        while i < live.len()
            invariant
                i <= live@.len(),
                forall|hash: ChunkHash| #[trigger]
                    tally@.counts.contains_key(hash) <==> pending@.contains(hash),
                forall|hash: ChunkHash|
                    pending@.contains(hash) ==> #[trigger] tally@.counts[hash]
                        == counting::occurrences(live@.take(i as int), hash),
            decreases live@.len() - i,
        {
            let hash = live[i];
            let ghost before = tally@.counts;
            proof {
                assert(live@.take(i + 1).drop_last() =~= live@.take(i as int));
            }
            if tally.contains(&hash) {
                let count: u64 = tally.references(&hash);
                proof {
                    assert(before[hash] == counting::occurrences(live@.take(i as int), hash));
                    counting::occurrences_positive(live@.take(i as int), hash);
                    assert(live@.len() == live.len());
                }
                tally.set(&hash, count + 1);
            }
            proof {
                assert forall|other: ChunkHash| pending@.contains(other) implies #[trigger]
                    tally@.counts[other] == counting::occurrences(live@.take(i + 1), other) by {
                    assert(before[other] == counting::occurrences(live@.take(i as int), other));
                    assert(before.contains_key(other) <==> pending@.contains(other));
                }
            }
            i = i + 1;
        }
        assert(live@.take(i as int) =~= live@);
        tally
    }

    /// Finishes interrupted deletions: counts the chunks of `pending` from the `live` archives.
    /// Gives the chunks that none of them uses, each once, to be deleted from storage.
    pub fn settle(&mut self, pending: &Vec<ChunkHash>, live: &Vec<ChunkHash>) -> (unused: Vec<
        ChunkHash,
    >)
        ensures
            final(self)@ == index::with_counts(
                old(self)@,
                settled(old(self)@.counts, pending@, live@),
            ),
            unused@.no_duplicates(),
            forall|hash: ChunkHash| #[trigger]
                unused@.contains(hash) <==> pending@.contains(hash) && !live@.contains(hash),
            forall|hash: ChunkHash|
                pending@.contains(hash) ==> (#[trigger] final(self)@.counts.contains_key(hash)
                    <==> live@.contains(hash)),
            forall|hash: ChunkHash|
                pending@.contains(hash) && live@.contains(hash) ==> #[trigger] final(self)@.counts[hash]
                    == live@.to_multiset().count(hash),
            forall|hash: ChunkHash|
                !pending@.contains(hash) ==> (#[trigger] final(self)@.counts.contains_key(hash)
                    <==> old(self)@.counts.contains_key(hash)),
            forall|hash: ChunkHash|
                !pending@.contains(hash) && old(self)@.counts.contains_key(hash)
                    ==> #[trigger] final(self)@.counts[hash] == old(self)@.counts[hash],
    {
        let tally = self.tally(pending, live);
        let unused = tally.unreferenced();
        let entries = tally.iter();
        let ghost start = self@.counts;
        let mut i: usize = 0;
        while i < entries.len()
            invariant
                i <= entries@.len(),
                self@ == index::with_counts(old(self)@, self@.counts),
                start == old(self)@.counts,
                crate::chunks::table::lists(entries@, tally@.counts),
                forall|j: int|
                    0 <= j < i ==> {
                        let hash = (#[trigger] entries@[j]).0;
                        &&& self@.counts.contains_key(hash) <==> entries@[j].1 > 0
                        &&& entries@[j].1 > 0 ==> self@.counts[hash] == entries@[j].1
                    },
                forall|hash: ChunkHash|
                    !listed(entries@, i as int, hash) ==> (#[trigger] self@.counts.contains_key(
                        hash,
                    ) <==> start.contains_key(hash)) && self@.counts[hash] == start[hash],
            decreases entries@.len() - i,
        {
            let (hash, count) = entries[i];
            let ghost before = self@.counts;
            if count == 0 {
                self.remove(&hash);
            } else {
                self.set(&hash, count);
            }
            proof {
                assert(entries@[i as int].0 == hash);
                assert forall|other: ChunkHash| !listed(entries@, i + 1, other) implies (
                #[trigger] self@.counts.contains_key(other) <==> start.contains_key(other))
                    && self@.counts[other] == start[other] by {
                    assert(entries@[i as int].0 != other);
                    assert(!listed(entries@, i as int, other));
                    assert(before.contains_key(other) <==> start.contains_key(other));
                }
            }
            i = i + 1;
        }
        proof {
            let after = self@.counts;
            let wanted = settled(start, pending@, live@);
            assert forall|hash: ChunkHash|
                (#[trigger] after.contains_key(hash) <==> wanted.contains_key(hash)) && (
                after.contains_key(hash) ==> after[hash] == wanted[hash]) by {
                counting::occurrences_positive(live@, hash);
                assert(live@.len() == live.len());
                if pending@.contains(hash) {
                    assert(tally@.counts.contains_key(hash));
                    assert(tally@.counts[hash] == counting::occurrences(live@, hash));
                    let j = choose|j: int|
                        0 <= j < entries@.len() && (#[trigger] entries@[j]).0 == hash;
                    assert(entries@[j].1 == tally@.counts[hash]);
                } else {
                    assert(!tally@.counts.contains_key(hash));
                    if listed(entries@, i as int, hash) {
                        let j = choose|j: int|
                            0 <= j < entries@.len() && (#[trigger] entries@[j]).0 == hash;
                        assert(tally@.counts.contains_key(entries@[j].0));
                    }
                }
            }
            assert(after =~= wanted);
            assert forall|hash: ChunkHash| #[trigger]
                unused@.contains(hash) <==> pending@.contains(hash) && !live@.contains(hash) by {
                counting::occurrences_positive(live@, hash);
                if pending@.contains(hash) {
                    assert(tally@.counts[hash] == counting::occurrences(live@, hash));
                }
            }
            assert forall|hash: ChunkHash|
                pending@.contains(hash) && live@.contains(hash) implies #[trigger]
                self@.counts[hash] == live@.to_multiset().count(hash) by {
                counting::occurrences_is_multiplicity(live@, hash);
                counting::occurrences_positive(live@, hash);
                assert(live@.len() == live.len());
                assert(wanted.contains_key(hash));
            }
        }
        unused
    }

    /// Takes everything out that nothing references. Gives the chunks to be deleted from storage:
    /// those that are counted zero, then those in storage that are not counted at all.
    pub fn sweep(&mut self, stored: &Vec<ChunkHash>) -> (unused: Vec<ChunkHash>)
        ensures
            final(self)@ == index::with_counts(old(self)@, final(self)@.counts),
            forall|hash: ChunkHash| #[trigger]
                final(self)@.counts.contains_key(hash) <==> index::references_of(
                    old(self)@.counts,
                    hash,
                ) > 0,
            forall|hash: ChunkHash| #[trigger]
                final(self)@.counts.contains_key(hash) ==> final(self)@.counts[hash] == old(
                    self,
                )@.counts[hash],
            exists|zero: Seq<ChunkHash>| #[trigger]
                zero_list(zero, old(self)@.counts) && unused@ == zero + orphans_in(
                    stored@,
                    old(self)@.counts,
                ),
            forall|hash: ChunkHash| #[trigger]
                unused@.contains(hash) <==> if old(self)@.counts.contains_key(hash) {
                    old(self)@.counts[hash] == 0
                } else {
                    stored@.contains(hash)
                },
            stored@.no_duplicates() ==> unused@.no_duplicates(),
    {
        let mut unused = self.unreferenced();
        let ghost zero = unused@;
        let ghost start = self@.counts;
        let ghost known = |hash: ChunkHash| !start.contains_key(hash);
        let mut i: usize = 0;
        while i < stored.len()
            invariant
                i <= stored@.len(),
                self@.counts == start,
                known == (|hash: ChunkHash| !start.contains_key(hash)),
                unused@ == zero + stored@.take(i as int).filter(known),
            decreases stored@.len() - i,
        {
            let hash = stored[i];
            proof {
                assert(stored@.take(i + 1).drop_last() =~= stored@.take(i as int));
                reveal(Seq::filter);
            }
            let ghost before = unused@;
            if !self.contains(&hash) {
                unused.push(hash);
            }
            assert(unused@ =~= zero + stored@.take(i + 1).filter(known));
            i = i + 1;
        }
        assert(stored@.take(i as int) =~= stored@);
        let mut k: usize = 0;
        while k < unused.len()
            invariant
                k <= unused@.len(),
                self@ == index::with_counts(old(self)@, self@.counts),
                start == old(self)@.counts,
                forall|hash: ChunkHash| #[trigger]
                    self@.counts.contains_key(hash) <==> start.contains_key(hash) && !unused@.take(
                        k as int,
                    ).contains(hash),
                forall|hash: ChunkHash| #[trigger]
                    self@.counts.contains_key(hash) ==> self@.counts[hash] == start[hash],
            decreases unused@.len() - k,
        {
            let hash = unused[k];
            let ghost before = self@.counts;
            self.remove(&hash);
            proof {
                let front = unused@.take(k as int);
                let more = unused@.take(k + 1);
                assert(more =~= front.push(hash));
                assert forall|other: ChunkHash| #[trigger]
                    self@.counts.contains_key(other) <==> start.contains_key(other)
                        && !more.contains(other) by {
                    assert(before.contains_key(other) <==> start.contains_key(other)
                        && !front.contains(other));
                    if front.contains(other) {
                        let j = choose|j: int| 0 <= j < front.len() && front[j] == other;
                        assert(more[j] == other);
                    }
                    if more.contains(other) && other != hash {
                        let j = choose|j: int| 0 <= j < more.len() && more[j] == other;
                        assert(front[j] == other);
                    }
                    if other == hash {
                        assert(more[k as int] == other);
                    }
                }
            }
            k = k + 1;
        }
        proof {
            assert(unused@.take(k as int) =~= unused@);
            let orphans = stored@.filter(known);
            assert(orphans == orphans_in(stored@, start));
            assert forall|hash: ChunkHash| #[trigger]
                self@.counts.contains_key(hash) <==> index::references_of(start, hash) > 0 by {
                if start.contains_key(hash) {
                    if start[hash] == 0 {
                        assert(zero.contains(hash));
                        let j = choose|j: int| 0 <= j < zero.len() && zero[j] == hash;
                        assert(unused@[j] == hash);
                    } else if unused@.contains(hash) {
                        let j = choose|j: int| 0 <= j < unused@.len() && unused@[j] == hash;
                        if j < zero.len() {
                            assert(zero[j] == hash);
                            assert(zero.contains(hash));
                        } else {
                            assert(orphans[j - zero.len()] == hash);
                            assert(known(orphans[j - zero.len()]));
                        }
                    }
                }
            }
            assert(zero_list(zero, start));
            assert forall|hash: ChunkHash| #[trigger]
                unused@.contains(hash) <==> if start.contains_key(hash) {
                    start[hash] == 0
                } else {
                    stored@.contains(hash)
                } by {
                swept_hash(zero, stored@, start, hash);
            }
            if stored@.no_duplicates() {
                cleaning_reports_once(zero, stored@, start);
            }
        }
        unused
    }
}

/// Whether a list holds every chunk that is counted zero, each once.
pub open spec fn zero_list(hashes: Seq<ChunkHash>, counts: Map<ChunkHash, u64>) -> bool {
    &&& hashes.no_duplicates()
    &&& forall|hash: ChunkHash| #[trigger]
        hashes.contains(hash) <==> counts.contains_key(hash) && counts[hash] == 0
}

/// Settling counts each pending chunk as often as the live archives hold it, forgets it if that is
/// never, and touches no other chunk.
pub proof fn settled_hash(
    counts: Map<ChunkHash, u64>,
    pending: Seq<ChunkHash>,
    live: Seq<ChunkHash>,
    hash: ChunkHash,
)
    requires
        live.len() <= u64::MAX,
    ensures
        ({
            let after = settled(counts, pending, live);
            &&& pending.contains(hash) ==> (after.contains_key(hash) <==> live.contains(hash))
            &&& pending.contains(hash) && live.contains(hash) ==> after[hash]
                == live.to_multiset().count(hash)
            &&& !pending.contains(hash) ==> (after.contains_key(hash) <==> counts.contains_key(
                hash,
            ))
            &&& !pending.contains(hash) && counts.contains_key(hash) ==> after[hash]
                == counts[hash]
        }),
{
    counting::occurrences_is_multiplicity(live, hash);
    counting::occurrences_positive(live, hash);
}

/// What cleaning deletes: a chunk that is known goes if it has no references, and one that is not
/// goes if it is in storage.
pub proof fn swept_hash(
    zero: Seq<ChunkHash>,
    stored: Seq<ChunkHash>,
    counts: Map<ChunkHash, u64>,
    hash: ChunkHash,
)
    requires
        zero_list(zero, counts),
    ensures
        (zero + orphans_in(stored, counts)).contains(hash) <==> if counts.contains_key(hash) {
            counts[hash] == 0
        } else {
            stored.contains(hash)
        },
{
    let known = |hash: ChunkHash| !counts.contains_key(hash);
    let orphans = stored.filter(known);
    let all = zero + orphans;
    assert(orphans == orphans_in(stored, counts));
    assert(zero.contains(hash) <==> counts.contains_key(hash) && counts[hash] == 0);
    if zero.contains(hash) {
        let j = choose|j: int| 0 <= j < zero.len() && zero[j] == hash;
        assert(all[j] == hash);
    }
    if orphans.contains(hash) {
        stored.lemma_filter_contains_rev(known, hash);
        let j = choose|j: int| 0 <= j < orphans.len() && orphans[j] == hash;
        assert(known(orphans[j]));
        assert(all[zero.len() + j] == hash);
    }
    if stored.contains(hash) && !counts.contains_key(hash) {
        let i = choose|i: int| 0 <= i < stored.len() && stored[i] == hash;
        assert(known(stored[i]));
        assert(orphans.contains(stored[i]));
    }
    if all.contains(hash) {
        let j = choose|j: int| 0 <= j < all.len() && all[j] == hash;
        if j < zero.len() {
            assert(zero[j] == hash);
        } else {
            assert(orphans[j - zero.len()] == hash);
        }
    }
}

/// Cleaning reports no chunk twice, unless storage lists it twice.
pub proof fn cleaning_reports_once(
    zero: Seq<ChunkHash>,
    stored: Seq<ChunkHash>,
    counts: Map<ChunkHash, u64>,
)
    requires
        zero_list(zero, counts),
        stored.no_duplicates(),
    ensures
        (zero + orphans_in(stored, counts)).no_duplicates(),
{
    let known = |hash: ChunkHash| !counts.contains_key(hash);
    let orphans = stored.filter(known);
    assert(orphans == orphans_in(stored, counts));
    filter_keeps_no_duplicates(stored, known);
    let all = zero + orphans;
    assert forall|i: int, j: int| 0 <= i < j < all.len() implies all[i] != all[j] by {
        if i < zero.len() && j >= zero.len() {
            assert(zero.contains(zero[i]));
            assert(known(orphans[j - zero.len()]));
        }
    }
}

proof fn filter_keeps_no_duplicates(hashes: Seq<ChunkHash>, keep: spec_fn(ChunkHash) -> bool)
    requires
        hashes.no_duplicates(),
    ensures
        hashes.filter(keep).no_duplicates(),
    decreases hashes.len(),
{
    reveal(Seq::filter);
    if hashes.len() > 0 {
        let front = hashes.drop_last();
        assert forall|i: int, j: int| 0 <= i < j < front.len() implies front[i] != front[j] by {
            assert(hashes[i] != hashes[j]);
        }
        filter_keeps_no_duplicates(front, keep);
        let kept = front.filter(keep);
        if keep(hashes.last()) {
            assert forall|i: int| 0 <= i < kept.len() implies kept[i] != hashes.last() by {
                assert(kept.contains(kept[i]));
                front.lemma_filter_contains_rev(keep, kept[i]);
                let k = choose|k: int| 0 <= k < front.len() && front[k] == kept[i];
                assert(hashes[k] != hashes[hashes.len() - 1]);
            }
        }
    }
}

} // verus!
