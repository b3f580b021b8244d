//! Chunk hashes: the algorithms that name chunks, and how a hash is written.
use crate::error;
use crate::error::{invalid, Error};
use crate::text;
use blake2::{Blake2b, Digest};
use vstd::prelude::*;

verus! {

/// The hash that names a chunk.
pub type ChunkHash = [u8; 32];

/// Hash that names chunk files, fixed per chunk store and recorded in the index header.
/// BLAKE2b is the default for compatibility; BLAKE3 is faster and opt-in.
#[derive(Debug, Clone, Copy, PartialEq, Eq, Structural)]
pub enum HashAlgorithm {
    Blake2b256,
    Blake3,
}

/// BLAKE2b of `data` with a digest of 32 bytes.
pub uninterp spec fn blake2b_256(data: Seq<u8>) -> [u8; 32];

/// BLAKE3 of `data`.
pub uninterp spec fn blake3_256(data: Seq<u8>) -> [u8; 32];

/// A text as `{:?}` shows it: in quotes, with escapes.
pub uninterp spec fn quoted(text: Seq<char>) -> Seq<char>;

/// `blake2::Blake2b::<U32>::digest`: the digest depends on nothing but the bytes.
#[verifier::external_body]
fn blake2b_digest(data: &[u8]) -> (hash: ChunkHash)
    ensures
        hash == blake2b_256(data@),
{
    Blake2b::<blake2::digest::consts::U32>::digest(data).into()
}

/// `blake3::hash`: the digest depends on nothing but the bytes.
#[verifier::external_body]
pub(crate) fn blake3_digest(data: &[u8]) -> (hash: ChunkHash)
    ensures
        hash == blake3_256(data@),
{
    *blake3::hash(data).as_bytes()
}

/// `std::fmt::Debug` of a text: what is shown depends on nothing but the text.
#[verifier::external_body]
fn debug_text(text: &str) -> (shown: String)
    ensures
        shown@ == quoted(text@),
{
    format!("{text:?}")
}

/// The byte that stands for an algorithm in an index header.
pub open spec fn algorithm_code(algorithm: HashAlgorithm) -> u8 {
    match algorithm {
        HashAlgorithm::Blake2b256 => 0,
        HashAlgorithm::Blake3 => 1,
    }
}

/// The hash of `data` under `algorithm`.
pub open spec fn digest(algorithm: HashAlgorithm, data: Seq<u8>) -> ChunkHash {
    match algorithm {
        HashAlgorithm::Blake2b256 => blake2b_256(data),
        HashAlgorithm::Blake3 => blake3_256(data),
    }
}

/// A hash in hexadecimal: two digits to a byte, the high one first.
pub open spec fn hex_text(hash: Seq<u8>) -> Seq<char> {
    Seq::new(
        2 * hash.len(),
        |i: int|
            text::digits()[if i % 2 == 0 {
                hash[i / 2] / 16
            } else {
                hash[i / 2] % 16
            } as int],
    )
}

impl Default for HashAlgorithm {
    fn default() -> (algorithm: Self)
        ensures
            algorithm == HashAlgorithm::Blake2b256,
    {
        HashAlgorithm::Blake2b256
    }
}

impl HashAlgorithm {
    pub fn encode(&self) -> (code: u8)
        ensures
            code == algorithm_code(*self),
            *self is Blake2b256 ==> code == 0,
            *self is Blake3 ==> code == 1,
    {
        match self {
            HashAlgorithm::Blake2b256 => 0,
            HashAlgorithm::Blake3 => 1,
        }
    }

    pub fn try_decode(value: u8) -> (decoded: Result<Self, Error>)
        ensures
            match decoded {
                Ok(algorithm) => value == algorithm_code(algorithm) && value <= 1,
                Err(err) => value > 1 && err@ == error::invalid_model("invalid hash algorithm"@),
            },
    {
        match value {
            0 => Ok(HashAlgorithm::Blake2b256),
            1 => Ok(HashAlgorithm::Blake3),
            _ => Err(invalid("invalid hash algorithm".to_owned())),
        }
    }

    pub fn hash(&self, data: &[u8]) -> (hash: ChunkHash)
        ensures
            hash == digest(*self, data@),
            *self is Blake2b256 ==> hash == blake2b_256(data@),
            *self is Blake3 ==> hash == blake3_256(data@),
    {
        match self {
            HashAlgorithm::Blake2b256 => blake2b_digest(data),
            HashAlgorithm::Blake3 => blake3_digest(data),
        }
    }

    /// The algorithm that a setting names.
    pub fn from_name(name: &str) -> (found: Result<Self, Error>)
        ensures
            match found {
                Ok(HashAlgorithm::Blake2b256) => name@ == "blake2b"@,
                Ok(HashAlgorithm::Blake3) => name@ == "blake3"@,
                Err(err) => name@ != "blake2b"@ && name@ != "blake3"@ && err@
                    == error::invalid_model("unknown hash algorithm "@ + quoted(name@)),
            },
    {
        proof {
            reveal_strlit("blake2b");
            reveal_strlit("blake3");
            assert("blake2b"@.len() != "blake3"@.len());
        }
        if text::same_text(name, "blake2b") {
            Ok(HashAlgorithm::Blake2b256)
        } else if text::same_text(name, "blake3") {
            Ok(HashAlgorithm::Blake3)
        } else {
            let shown = debug_text(name);
            Err(invalid(text::join2("unknown hash algorithm ", shown.as_str())))
        }
    }
}

impl std::str::FromStr for HashAlgorithm {
    type Err = Error;

    fn from_str(name: &str) -> (found: Result<Self, Error>)
        ensures
            match found {
                Ok(HashAlgorithm::Blake2b256) => name@ == "blake2b"@,
                Ok(HashAlgorithm::Blake3) => name@ == "blake3"@,
                Err(err) => name@ != "blake2b"@ && name@ != "blake3"@ && err@
                    == error::invalid_model("unknown hash algorithm "@ + quoted(name@)),
            },
    {
        HashAlgorithm::from_name(name)
    }
}

/// Every algorithm reads back from the byte that it is written as.
pub proof fn algorithm_codes_differ(a: HashAlgorithm, b: HashAlgorithm)
    ensures
        algorithm_code(a) == algorithm_code(b) ==> a == b,
        algorithm_code(a) <= 1,
{
}

/// Two hashes that are written alike are one hash, so a chunk's file name tells which chunk it is.
pub proof fn hex_text_is_injective(a: ChunkHash, b: ChunkHash)
    ensures
        hex_text(a@) == hex_text(b@) ==> a == b,
{
    if hex_text(a@) == hex_text(b@) {
        assert forall|i: int| 0 <= i < 32 implies a@[i] == b@[i] by {
            assert(hex_text(a@)[2 * i] == hex_text(b@)[2 * i]);
            assert(hex_text(a@)[2 * i + 1] == hex_text(b@)[2 * i + 1]);
            assert((2 * i) / 2 == i && (2 * i + 1) / 2 == i);
            assert((2 * i) % 2 == 0 && (2 * i + 1) % 2 == 1);
            digits_differ(a@[i] / 16, b@[i] / 16);
            digits_differ(a@[i] % 16, b@[i] % 16);
        }
        assert(a@ =~= b@);
        assert(a =~= b);
    }
}

proof fn digits_differ(a: u8, b: u8)
    requires
        a < 16,
        b < 16,
        text::digits()[a as int] == text::digits()[b as int],
    ensures
        a == b,
{
}

pub fn same_hash(a: &ChunkHash, b: &ChunkHash) -> (same: bool)
    ensures
        same == (*a == *b),
{
    let mut i: usize = 0;
    while i < 32
        invariant
            i <= 32,
            forall|j: int| 0 <= j < i ==> a@[j] == b@[j],
        decreases 32 - i,
    {
        if a[i] != b[i] {
            return false;
        }
        i = i + 1;
    }
    assert(a@ =~= b@);
    assert(*a =~= *b);
    true
}

pub fn hex(hash: &ChunkHash) -> (hex: String)
    ensures
        hex@ == hex_text(hash@),
{
    let mut hex = String::new();
    let mut i: usize = 0;
    while i < 32
        invariant
            i <= 32,
            hex@ == hex_text(hash@).take(2 * i),
        decreases 32 - i,
    {
        let byte: u8 = hash[i];
        hex.push(text::digit(byte / 16));
        hex.push(text::digit(byte % 16));
        proof {
            assert((2 * i) / 2 == i && (2 * i + 1) / 2 == i);
            assert((2 * i) % 2 == 0 && (2 * i + 1) % 2 == 1);
        }
        assert(hex@ =~= hex_text(hash@).take(2 * i + 2));
        i = i + 1;
    }
    assert(hex_text(hash@).take(64) =~= hex_text(hash@));
    hex
}

/// A hash is written as two hexadecimal digits for each byte, the high one first and in lower case.
pub proof fn hex_text_spells_every_byte(hash: Seq<u8>, i: int)
    requires
        0 <= i < hash.len(),
    ensures
        hex_text(hash).len() == 2 * hash.len(),
        hex_text(hash)[2 * i] == if hash[i] / 16 < 10 {
            (48 + hash[i] / 16) as char
        } else {
            (87 + hash[i] / 16) as char
        },
        hex_text(hash)[2 * i + 1] == if hash[i] % 16 < 10 {
            (48 + hash[i] % 16) as char
        } else {
            (87 + hash[i] % 16) as char
        },
{
    assert((2 * i) / 2 == i && (2 * i + 1) / 2 == i);
    assert((2 * i) % 2 == 0 && (2 * i + 1) % 2 == 1);
    text::digits_in_order(hash[i] / 16);
    text::digits_in_order(hash[i] % 16);
}

/// Each algorithm names chunks by its own digest of their data.
pub proof fn digest_is_that_of_the_algorithm(data: Seq<u8>)
    ensures
        digest(HashAlgorithm::Blake2b256, data) == blake2b_256(data),
        digest(HashAlgorithm::Blake3, data) == blake3_256(data),
{
}

} // verus!
