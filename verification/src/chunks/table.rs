//! The map under the index: a `DashMap` keyed by chunk hashes.
use crate::chunks::hash::ChunkHash;
use dashmap::DashMap;
use std::hash::{BuildHasherDefault, Hasher};
use vstd::bytes::*;
use vstd::prelude::*;

verus! {

/// Chunk hashes are already uniform, so the index keys its map by their leading bytes instead of
/// hashing them again.
pub struct PrefixHasher(pub u64);

/// The first eight bytes as a little-endian number, with zeros for those that are missing.
pub open spec fn leading_word(bytes: Seq<u8>) -> u64 {
    spec_u64_from_le_bytes(
        Seq::new(
            8,
            |i: int|
                if i < bytes.len() {
                    bytes[i]
                } else {
                    0u8
                },
        ),
    )
}

/// A state that has taken in bytes: turned by a byte, then mixed with the leading word.
pub open spec fn mixed(state: u64, bytes: Seq<u8>) -> u64 {
    ((state << 8) | (state >> 56)) ^ leading_word(bytes)
}

impl Default for PrefixHasher {
    fn default() -> (hasher: Self)
        ensures
            hasher.0 == 0,
    {
        PrefixHasher(0)
    }
}

impl PrefixHasher {
    /// Takes in bytes.
    pub fn mix(&mut self, bytes: &[u8])
        ensures
            final(self).0 == mixed(old(self).0, bytes@),
    {
        let mut word: Vec<u8> = Vec::new();
        let mut i: usize = 0;
        while i < 8
            invariant
                i <= 8,
                word@.len() == i,
                forall|j: int|
                    0 <= j < i ==> word@[j] == if j < bytes@.len() {
                        bytes@[j]
                    } else {
                        0u8
                    },
            decreases 8 - i,
        {
            if i < bytes.len() {
                word.push(bytes[i]);
            } else {
                word.push(0);
            }
            i = i + 1;
        }
        let number: u64 = u64_from_le_bytes(word.as_slice());
        assert(word@ =~= Seq::new(
            8,
            |i: int|
                if i < bytes@.len() {
                    bytes@[i]
                } else {
                    0u8
                },
        ));
        self.0 = ((self.0 << 8) | (self.0 >> 56)) ^ number;
    }
}

impl Hasher for PrefixHasher {
    fn write(&mut self, bytes: &[u8])
        ensures
            final(self).0 == mixed(old(self).0, bytes@),
    {
        self.mix(bytes)
    }

    fn finish(&self) -> (word: u64)
        ensures
            word == self.0,
    {
        self.0
    }
}

/// A concurrent map of the `dashmap` crate.
#[verifier::external_type_specification]
#[verifier::external_body]
#[verifier::reject_recursive_types(K)]
#[verifier::reject_recursive_types(V)]
#[verifier::reject_recursive_types(S)]
pub struct ExDashMap<K, V, S>(dashmap::DashMap<K, V, S>);

/// The builder of hashers that start from their default.
#[verifier::external_type_specification]
#[verifier::external_body]
#[verifier::reject_recursive_types(H)]
pub struct ExBuildHasherDefault<H>(std::hash::BuildHasherDefault<H>);

/// The map that counts references.
pub type Table = DashMap<ChunkHash, u64, BuildHasherDefault<PrefixHasher>>;

/// What a table holds.
pub uninterp spec fn contents(table: Table) -> Map<ChunkHash, u64>;

/// The most entries that room is made for in advance.
pub const MAX_CAPACITY: usize = 0x10_0000;

/// Whether a list holds every entry of a map once, and nothing else.
pub open spec fn lists(entries: Seq<(ChunkHash, u64)>, counts: Map<ChunkHash, u64>) -> bool {
    &&& forall|i: int, j: int|
        0 <= i < j < entries.len() ==> (#[trigger] entries[i]).0 != (#[trigger] entries[j]).0
    &&& forall|i: int|
        0 <= i < entries.len() ==> counts.contains_key((#[trigger] entries[i]).0)
            && counts[entries[i].0] == entries[i].1
    &&& forall|hash: ChunkHash| #[trigger]
        counts.contains_key(hash) ==> exists|i: int|
            0 <= i < entries.len() && (#[trigger] entries[i]).0 == hash
}

/// `DashMap::default`: a map without entries.
#[verifier::external_body]
pub(crate) fn new_table() -> (table: Table)
    ensures
        contents(table) =~= Map::empty(),
{
    DashMap::default()
}

/// `DashMap::with_capacity_and_hasher`: a map without entries. The capacity is bounded, since the
/// map cannot be made for any number.
#[verifier::external_body]
pub(crate) fn table_with_capacity(capacity: usize) -> (table: Table)
    requires
        capacity <= MAX_CAPACITY,
    ensures
        contents(table) =~= Map::empty(),
{
    DashMap::with_capacity_and_hasher(capacity, Default::default())
}

/// `DashMap::insert`: the key has the value from then on; the others keep theirs.
#[verifier::external_body]
pub(crate) fn put(table: &mut Table, hash: ChunkHash, count: u64)
    ensures
        contents(*final(table)) == contents(*old(table)).insert(hash, count),
{
    table.insert(hash, count);
}

/// `DashMap::remove`: the key is gone; the others keep their values.
#[verifier::external_body]
pub(crate) fn take_out(table: &mut Table, hash: &ChunkHash)
    ensures
        contents(*final(table)) == contents(*old(table)).remove(*hash),
{
    table.remove(hash);
}

/// `DashMap::get`: the value of a key that is there.
#[verifier::external_body]
pub(crate) fn look_up(table: &Table, hash: &ChunkHash) -> (count: Option<u64>)
    ensures
        count is Some <==> contents(*table).contains_key(*hash),
        count is Some ==> count->0 == contents(*table)[*hash],
{
    table.get(hash).map(|count| *count)
}

/// `DashMap::contains_key`.
#[verifier::external_body]
pub(crate) fn has(table: &Table, hash: &ChunkHash) -> (found: bool)
    ensures
        found == contents(*table).contains_key(*hash),
{
    table.contains_key(hash)
}

/// `DashMap::len`: how many entries there are.
#[verifier::external_body]
pub(crate) fn size(table: &Table) -> (len: usize)
    ensures
        len == contents(*table).len(),
{
    table.len()
}

/// `DashMap::is_empty`.
#[verifier::external_body]
pub(crate) fn holds_nothing(table: &Table) -> (empty: bool)
    ensures
        empty <==> contents(*table) =~= Map::empty(),
{
    table.is_empty()
}

/// `DashMap::iter`: every entry once, in no order that is promised.
#[verifier::external_body]
pub(crate) fn entries(table: &Table) -> (entries: Vec<(ChunkHash, u64)>)
    ensures
        lists(entries@, contents(*table)),
{
    table.iter().map(|entry| (*entry.key(), *entry.value())).collect()
}

/// A key is spread by its first eight bytes, as they are.
pub proof fn keys_are_spread_by_their_front(bytes: Seq<u8>)
    requires
        bytes.len() >= 8,
    ensures
        mixed(0, bytes) == spec_u64_from_le_bytes(bytes.take(8)),
{
    assert(Seq::new(
        8,
        |i: int|
            if i < bytes.len() {
                bytes[i]
            } else {
                0u8
            },
    ) =~= bytes.take(8));
    let word = leading_word(bytes);
    assert(((0u64 << 8) | (0u64 >> 56)) ^ word == word) by (bit_vector);
}

/// A list of a map's entries holds each entry of the map once, and nothing else.
pub proof fn lists_hold_every_entry_once(
    entries: Seq<(ChunkHash, u64)>,
    counts: Map<ChunkHash, u64>,
    hash: ChunkHash,
    count: u64,
)
    requires
        lists(entries, counts),
    ensures
        entries.no_duplicates(),
        entries.contains((hash, count)) <==> counts.contains_key(hash) && counts[hash] == count,
{
    assert forall|i: int, j: int|
        0 <= i < entries.len() && 0 <= j < entries.len() && i != j implies entries[i]
        != entries[j] by {
        if i < j {
            assert(entries[i].0 != entries[j].0);
        } else {
            assert(entries[j].0 != entries[i].0);
        }
    }
    if entries.contains((hash, count)) {
        let i = choose|i: int| 0 <= i < entries.len() && entries[i] == (hash, count);
        assert(counts.contains_key(entries[i].0));
    }
    if counts.contains_key(hash) && counts[hash] == count {
        let i = choose|i: int| 0 <= i < entries.len() && (#[trigger] entries[i]).0 == hash;
        assert(entries[i] == (hash, count));
    }
}

} // verus!
