//! The settings of a repository.
use crate::chunks::cdc;
use crate::chunks::cdc::{cdc_parameters, CutSizes};
use crate::chunks::hash::HashAlgorithm;
use crate::chunks::header::IndexHeader;
use crate::chunks::index;
use crate::chunks::index::ChunkIndex;
use crate::error::Error;
use crate::repository::opening;
use crate::repository::opening::rebuild_algorithm;
use vstd::prelude::*;

verus! {

/// A repository: how it cuts files and how it names chunks.
#[derive(Debug, Clone, Copy)]
pub struct Repository {
    pub chunk_size: usize,
    pub max_chunk_count: usize,
    pub hash_algorithm: HashAlgorithm,
}

impl Repository {
    /// A new repository that names chunks in the default way.
    pub fn new(chunk_size: usize, max_chunk_count: usize) -> (repository: Self)
        ensures
            repository == (Repository {
                chunk_size,
                max_chunk_count,
                hash_algorithm: HashAlgorithm::Blake2b256,
            }),
    {
        Repository::new_with_hash(chunk_size, max_chunk_count, HashAlgorithm::default())
    }

    pub fn new_with_hash(
        chunk_size: usize,
        max_chunk_count: usize,
        hash_algorithm: HashAlgorithm,
    ) -> (repository: Self)
        ensures
            repository == (Repository { chunk_size, max_chunk_count, hash_algorithm }),
    {
        Repository { chunk_size, max_chunk_count, hash_algorithm }
    }

    /// The repository whose index has this header.
    pub fn open(header: IndexHeader) -> (repository: Self)
        ensures
            repository == (Repository {
                chunk_size: header.chunk_size,
                max_chunk_count: header.max_chunk_count,
                hash_algorithm: header.hash_algorithm,
            }),
    {
        Repository {
            chunk_size: header.chunk_size,
            max_chunk_count: header.max_chunk_count,
            hash_algorithm: header.hash_algorithm,
        }
    }

    /// The repository that a rebuild makes: with these sizes, and the algorithm that its chunks
    /// tell or its index records.
    pub fn rebuild(
        chunk_size: usize,
        max_chunk_count: usize,
        detected: Option<HashAlgorithm>,
        header: Result<IndexHeader, Error>,
    ) -> (repository: Result<Self, Error>)
        ensures
            match (detected, header) {
                (Some(detected), _) => repository is Ok && repository->Ok_0 == (Repository {
                    chunk_size,
                    max_chunk_count,
                    hash_algorithm: detected,
                }),
                (None, Ok(header)) => repository is Ok && repository->Ok_0 == (Repository {
                    chunk_size,
                    max_chunk_count,
                    hash_algorithm: header.hash_algorithm,
                }),
                (None, Err(err)) => if opening::no_index(err.kind) {
                    repository is Ok && repository->Ok_0 == (Repository {
                        chunk_size,
                        max_chunk_count,
                        hash_algorithm: HashAlgorithm::Blake2b256,
                    })
                } else {
                    repository is Err && repository->Err_0 == err
                },
            },
    {
        match rebuild_algorithm(detected, header) {
            Ok(hash_algorithm) => Ok(Repository { chunk_size, max_chunk_count, hash_algorithm }),
            Err(err) => Err(err),
        }
    }

    /// The repository to go on with, when opening it gave `opened` and its index reads as
    /// `index`. `None` when it has to be rebuilt. Opening only reads the header, so the whole
    /// index is looked at.
    pub fn open_or_rebuild(opened: Result<Self, Error>, index: Result<Vec<u8>, Error>) -> (usable:
        Option<Self>)
        ensures
            usable == match (opened, index) {
                (Ok(repository), Ok(bytes)) => if index::loaded(bytes@) is Ok {
                    Some(repository)
                } else {
                    None
                },
                _ => None,
            },
    {
        match (opened, index) {
            (Ok(repository), Ok(bytes)) => match ChunkIndex::load(bytes.as_slice()) {
                Ok(_) => Some(repository),
                Err(_) => None,
            },
            _ => None,
        }
    }

    /// Does nothing; every operation saves the index itself.
    pub fn save(&self) -> (result: Result<(), Error>)
        ensures
            result is Ok,
    {
        Ok(())
    }

    /// Does nothing; the index is never held back until drop.
    pub fn set_save_on_drop(&mut self, _save_on_drop: bool) -> (repository: &mut Self)
        ensures
            *repository == *old(self),
            *final(self) == *final(repository),
    {
        self
    }

    pub fn hash_algorithm(&self) -> (algorithm: HashAlgorithm)
        ensures
            algorithm == self.hash_algorithm,
    {
        self.hash_algorithm
    }

    /// The index of a repository without archives.
    pub fn new_index(&self) -> (index: ChunkIndex)
        ensures
            index@ == (index::IndexModel {
                chunk_size: self.chunk_size,
                max_chunk_count: self.max_chunk_count,
                hash_algorithm: self.hash_algorithm,
                counts: Map::empty(),
            }),
    {
        ChunkIndex::new(self.chunk_size, self.max_chunk_count, self.hash_algorithm)
    }

    /// The index that a recount starts from: sizes as the index on disk has them, chunks named as
    /// this repository names them.
    pub fn recounted_index(&self, header: &IndexHeader) -> (index: ChunkIndex)
        ensures
            index@ == (index::IndexModel {
                chunk_size: header.chunk_size,
                max_chunk_count: header.max_chunk_count,
                hash_algorithm: self.hash_algorithm,
                counts: Map::empty(),
            }),
    {
        ChunkIndex::new(header.chunk_size, header.max_chunk_count, self.hash_algorithm)
    }

    /// The sizes that a file of `len` bytes is cut with.
    pub fn cut_sizes(&self, len: u64) -> (sizes: CutSizes)
        ensures
            cdc::file_sizes(sizes, self.chunk_size, self.max_chunk_count, len),
            cdc::accepted(sizes),
            sizes.avg == cdc::file_average(
                self.chunk_size as int,
                self.max_chunk_count as int,
                len as int,
            ),
            sizes.min == sizes.avg / 4,
            sizes.max == sizes.avg * 4,
    {
        cdc_parameters(self.chunk_size, self.max_chunk_count, len)
    }
}

} // verus!
