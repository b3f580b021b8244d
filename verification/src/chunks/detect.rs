//! Telling the hash algorithm of a chunk store from the chunks in it.
use crate::chunks::chunk;
use crate::chunks::chunk::read_chunk_unverified;
use crate::chunks::hash;
use crate::chunks::hash::{hex, same_hash, ChunkHash, HashAlgorithm};
use crate::error;
use crate::error::{invalid, is_damage, Error};
use crate::text;
use vstd::prelude::*;

verus! {

/// A chunk by its name, and what reading its stored form gave.
pub type StoredChunk = (ChunkHash, Result<Vec<u8>, Error>);

/// The search for the algorithm. Damage is only reported if no chunk is intact.
pub struct Detection {
    /// The first damage that was met.
    pub damage: Option<Error>,
}

/// The algorithm under which data has a hash.
pub open spec fn matching(data: Seq<u8>, hash: ChunkHash) -> Option<HashAlgorithm> {
    if hash::digest(HashAlgorithm::Blake2b256, data) == hash {
        Some(HashAlgorithm::Blake2b256)
    } else if hash::digest(HashAlgorithm::Blake3, data) == hash {
        Some(HashAlgorithm::Blake3)
    } else {
        None
    }
}

/// The error for a chunk that no algorithm gives its name.
pub open spec fn mismatch_model(hash: ChunkHash) -> error::ErrorModel {
    error::invalid_model(
        "chunk "@ + hash::hex_text(hash@)
            + " does not match its content under any hash algorithm"@,
    )
}

/// What one chunk says: the algorithm, damage that the search goes on behind, or an error that
/// ends it.
pub enum Clue {
    Algorithm(HashAlgorithm),
    Damage(error::ErrorModel),
    Stop(error::ErrorModel),
}

pub open spec fn clue(hash: ChunkHash, content: Result<Vec<u8>, Error>) -> Clue {
    let read = match content {
        Ok(content) => chunk::decoded_chunk(hash, content@),
        Err(err) => Err(err@),
    };
    match read {
        Ok(data) => match matching(data, hash) {
            Some(algorithm) => Clue::Algorithm(algorithm),
            None => Clue::Damage(mismatch_model(hash)),
        },
        Err(err) => if error::damage_kind(err.kind) {
            Clue::Damage(err)
        } else {
            Clue::Stop(err)
        },
    }
}

/// The result of a search through chunks, when `damage` is the first damage met before.
pub open spec fn detected(chunks: Seq<StoredChunk>, damage: Option<error::ErrorModel>) -> Result<
    Option<HashAlgorithm>,
    error::ErrorModel,
>
    decreases chunks.len(),
{
    if chunks.len() == 0 {
        match damage {
            Some(err) => Err(err),
            None => Ok(None),
        }
    } else {
        match clue(chunks[0].0, chunks[0].1) {
            Clue::Algorithm(algorithm) => Ok(Some(algorithm)),
            Clue::Stop(err) => Err(err),
            Clue::Damage(err) => detected(
                chunks.drop_first(),
                match damage {
                    Some(first) => Some(first),
                    None => Some(err),
                },
            ),
        }
    }
}

/// An error that may be there, by value.
pub open spec fn damage_model(damage: Option<Error>) -> Option<error::ErrorModel> {
    match damage {
        Some(err) => Some(err@),
        None => None,
    }
}

/// Damaged chunks do not hide the algorithm: the first chunk that is whole tells it.
pub proof fn detection_passes_damage(
    chunks: Seq<StoredChunk>,
    damage: Option<error::ErrorModel>,
    i: int,
)
    requires
        0 <= i < chunks.len(),
        forall|j: int| 0 <= j < i ==> clue((#[trigger] chunks[j]).0, chunks[j].1) is Damage,
        clue(chunks[i].0, chunks[i].1) is Algorithm,
    ensures
        detected(chunks, damage) == Ok::<_, error::ErrorModel>(
            Some(clue(chunks[i].0, chunks[i].1)->Algorithm_0),
        ),
    decreases i,
{
    if i > 0 {
        let rest = chunks.drop_first();
        assert(clue(chunks[0].0, chunks[0].1) is Damage);
        assert forall|j: int| 0 <= j < i - 1 implies clue((#[trigger] rest[j]).0, rest[j].1)
            is Damage by {
            assert(rest[j] == chunks[j + 1]);
        }
        assert(rest[i - 1] == chunks[i]);
        let first = match damage {
            Some(first) => Some(first),
            None => Some(clue(chunks[0].0, chunks[0].1)->Damage_0),
        };
        detection_passes_damage(rest, first, i - 1);
    }
}

impl Detection {
    pub fn new() -> (detection: Self)
        ensures
            detection.damage is None,
    {
        Detection { damage: None }
    }

    /// Looks at a chunk. An algorithm or an error ends the search.
    pub fn look(&mut self, hash: &ChunkHash, content: Result<Vec<u8>, Error>) -> (found: Result<
        Option<HashAlgorithm>,
        Error,
    >)
        ensures
            match clue(*hash, content) {
                Clue::Algorithm(algorithm) => {
                    &&& found is Ok && found->Ok_0 == Some(algorithm)
                    &&& final(self).damage == old(self).damage
                },
                Clue::Stop(err) => {
                    &&& found is Err && found->Err_0@ == err
                    &&& final(self).damage == old(self).damage
                },
                Clue::Damage(err) => {
                    &&& found is Ok && found->Ok_0 is None
                    &&& damage_model(final(self).damage) == match damage_model(old(self).damage) {
                        Some(first) => Some(first),
                        None => Some(err),
                    }
                },
            },
    {
        let read = match content {
            Ok(content) => read_chunk_unverified(hash, content.as_slice()),
            Err(err) => Err(err),
        };
        let damage = match read {
            Ok(data) => {
                if same_hash(&HashAlgorithm::Blake2b256.hash(data.as_slice()), hash) {
                    return Ok(Some(HashAlgorithm::Blake2b256));
                }
                if same_hash(&HashAlgorithm::Blake3.hash(data.as_slice()), hash) {
                    return Ok(Some(HashAlgorithm::Blake3));
                }
                let name = hex(hash);
                invalid(
                    text::join3(
                        "chunk ",
                        name.as_str(),
                        " does not match its content under any hash algorithm",
                    ),
                )
            },
            Err(err) => {
                if !is_damage(&err) {
                    return Err(err);
                }
                err
            },
        };
        if self.damage.is_none() {
            self.damage = Some(damage);
        }
        Ok(None)
    }

    /// The result when no chunk told the algorithm. `None` when there was none to ask.
    pub fn finish(self) -> (found: Result<Option<HashAlgorithm>, Error>)
        ensures
            match self.damage {
                Some(err) => found is Err && found->Err_0 == err,
                None => found is Ok && found->Ok_0 is None,
            },
    {
        match self.damage {
            Some(err) => Err(err),
            None => Ok(None),
        }
    }
}

fn copy_content(content: &Result<Vec<u8>, Error>) -> (copy: Result<Vec<u8>, Error>)
    ensures
        chunk::bytes_model(copy) == chunk::bytes_model(*content),
{
    match content {
        Ok(content) => Ok(vstd::slice::slice_to_vec(content.as_slice())),
        Err(err) => Err(err.duplicate()),
    }
}

/// Detects the hash algorithm by hashing stored chunks. `None` when storage is empty.
pub fn detect_hash_algorithm(chunks: &Vec<StoredChunk>) -> (found: Result<
    Option<HashAlgorithm>,
    Error,
>)
    ensures
        match (found, detected(chunks@, None)) {
            (Ok(found), Ok(found_spec)) => found == found_spec,
            (Err(err), Err(err_spec)) => err@ == err_spec,
            _ => false,
        },
{
    let mut detection = Detection::new();
    let mut i: usize = 0;
    assert(chunks@.skip(0) =~= chunks@);
    while i < chunks.len()
        invariant
            i <= chunks@.len(),
            detected(chunks@, None) == detected(
                chunks@.skip(i as int),
                damage_model(detection.damage),
            ),
        decreases chunks@.len() - i,
    {
        let (hash, content) = &chunks[i];
        let copy = copy_content(content);
        assert(clue(*hash, copy) == clue(*hash, *content));
        proof {
            assert(chunks@.skip(i as int)[0] == chunks@[i as int]);
            assert(chunks@.skip(i as int).drop_first() =~= chunks@.skip(i + 1));
        }
        match detection.look(hash, copy) {
            Ok(Some(algorithm)) => {
                return Ok(Some(algorithm));
            },
            Ok(None) => {},
            Err(err) => {
                return Err(err);
            },
        }
        i = i + 1;
    }
    detection.finish()
}

/// What a search says, chunk by chunk: the first that is whole tells the algorithm under which its
/// data has its name, damage is remembered if it is the first, and any other error ends the search.
pub proof fn detection_chunk_by_chunk(
    first: StoredChunk,
    rest: Seq<StoredChunk>,
    damage: Option<error::ErrorModel>,
)
    ensures
        detected(Seq::empty(), damage) == match damage {
            Some(err) => Err(err),
            None => Ok(None::<HashAlgorithm>),
        },
        ({
            let found = detected(seq![first] + rest, damage);
            let read = match first.1 {
                Ok(content) => chunk::decoded_chunk(first.0, content@),
                Err(err) => Err(err@),
            };
            match read {
                Ok(data) => if hash::blake2b_256(data) == first.0 {
                    found == Ok::<_, error::ErrorModel>(Some(HashAlgorithm::Blake2b256))
                } else if hash::blake3_256(data) == first.0 {
                    found == Ok::<_, error::ErrorModel>(Some(HashAlgorithm::Blake3))
                } else {
                    found == detected(
                        rest,
                        if damage is Some {
                            damage
                        } else {
                            Some(mismatch_model(first.0))
                        },
                    )
                },
                Err(err) => if err.kind is InvalidData || err.kind is InvalidInput || err.kind
                    is UnexpectedEof {
                    found == detected(
                        rest,
                        if damage is Some {
                            damage
                        } else {
                            Some(err)
                        },
                    )
                } else {
                    found == Err::<Option<HashAlgorithm>, _>(err)
                },
            }
        }),
        mismatch_model(first.0).kind is InvalidData,
{
    assert((seq![first] + rest).drop_first() =~= rest);
}

/// What is said of a chunk that no algorithm gives its name names the chunk.
pub proof fn mismatched_chunks_are_named(hash: ChunkHash)
    ensures
        mismatch_model(hash).kind is InvalidData,
        mismatch_model(hash).message == "chunk "@ + hash::hex_text(hash@)
            + " does not match its content under any hash algorithm"@,
{
}

} // verus!
