//! Names: of archives, of their files in the repository, and of what is never backed up.
use crate::chunks::hash;
use crate::chunks::hash::{blake3_digest, hex};
use crate::error;
use crate::error::{Error, ErrorKind};
use crate::text;
use crate::tree;
use crate::tree::Parts;
use crate::repository::settings::Repository;
use vstd::prelude::*;
use vstd::utf8::*;

verus! {

/// The longest name, in bytes.
pub const MAX_NAME_LEN: usize = 255;

/// Whether a name stays where it is put: not empty, not a step in a path, not a path itself, and
/// not longer than a file system takes.
pub open spec fn valid_name(name: Seq<char>) -> bool {
    &&& name.len() > 0
    &&& name != "."@
    &&& name != ".."@
    &&& !name.contains('/')
    &&& !name.contains('\0')
    &&& text::utf8_len(name) <= MAX_NAME_LEN
}

pub open spec fn invalid_name_model(name: Seq<char>) -> error::ErrorModel {
    error::error_model(ErrorKind::InvalidInput, "invalid name: "@ + name)
}

/// How many digits a text ends in.
pub open spec fn trailing_digits(text: Seq<char>) -> nat
    decreases text.len(),
{
    if text.len() > 0 && text::is_decimal_digit(text.last()) {
        trailing_digits(text.drop_last()) + 1
    } else {
        0
    }
}

/// The archive name in a marker's file name: `<name>.ddup` or `<name>.ddup.<n>`.
pub open spec fn pending_of(file: Seq<char>) -> Option<Seq<char>> {
    if text::has_suffix(file, ".ddup"@) {
        Some(text::without_suffix(file, ".ddup"@))
    } else {
        let stem = file.take(file.len() - trailing_digits(file));
        if trailing_digits(file) > 0 && text::has_suffix(stem, ".ddup."@) {
            Some(text::without_suffix(stem, ".ddup."@))
        } else {
            None
        }
    }
}

/// The ending of the marker with number `n`.
pub open spec fn marker_suffix(n: u64) -> Seq<char> {
    if n == 0 {
        ".ddup"@
    } else {
        ".ddup."@ + text::decimal_text(n as nat)
    }
}

/// The file name of the marker with number `n` for an archive. A numbered marker that would be too
/// long drops the name rather than truncate it; a truncated name could match another archive.
pub open spec fn marker_file(name: Seq<char>, n: u64) -> Seq<char> {
    if n > 0 && text::utf8_len(name) + text::utf8_len(marker_suffix(n)) > MAX_NAME_LEN {
        marker_suffix(n)
    } else {
        name + marker_suffix(n)
    }
}

/// The first sixteen digits of the BLAKE3 hash of bytes.
pub open spec fn short_digest(bytes: Seq<u8>) -> Seq<char> {
    hash::hex_text(hash::blake3_256(bytes)@).take(16)
}

/// Whether one of the parts is a repository's own directory.
pub open spec fn internal_path(parts: Seq<Option<Seq<char>>>) -> bool {
    exists|i: int|
        0 <= i < parts.len() && (#[trigger] parts[i] == Some(".ddup-bak"@) || parts[i] == Some(
            ".ddup-bak-restore"@,
        ))
}

/// The names of the archives among the files of a directory: those that end in `.ddup`, without
/// that ending, in order.
pub open spec fn archive_names(files: Seq<Option<Seq<char>>>) -> Seq<Seq<char>>
    decreases files.len(),
{
    if files.len() == 0 {
        Seq::empty()
    } else {
        let front = archive_names(files.drop_last());
        match files.last() {
            Some(file) => if text::has_suffix(file, ".ddup"@) {
                front.push(text::without_suffix(file, ".ddup"@))
            } else {
                front
            },
            None => front,
        }
    }
}

/// Texts, by value.
pub open spec fn texts(strings: Seq<String>) -> Seq<Seq<char>> {
    strings.map_values(|string: String| string@)
}

/// Whether one text sorts in front of another: by the first character that differs, and a text in
/// front of those that continue it.
pub open spec fn sorts_before(a: Seq<char>, b: Seq<char>) -> bool
    decreases a.len(),
{
    if b.len() == 0 {
        false
    } else if a.len() == 0 {
        true
    } else if a[0] != b[0] {
        a[0] < b[0]
    } else {
        sorts_before(a.drop_first(), b.drop_first())
    }
}

/// Whether texts are in order, each once.
pub open spec fn in_order(names: Seq<Seq<char>>) -> bool {
    forall|i: int, j: int|
        0 <= i < j < names.len() ==> sorts_before(#[trigger] names[i], #[trigger] names[j])
}

/// The file of an archive is listed under the archive's name.
pub proof fn archive_is_listed(name: Seq<char>)
    ensures
        archive_names(seq![Some(name + ".ddup"@)]) == seq![name],
{
    let file = name + ".ddup"@;
    let files = seq![Some(file)];
    assert(files.drop_last() =~= Seq::empty());
    assert(archive_names(files.drop_last()) =~= Seq::empty());
    assert(file.subrange(file.len() - ".ddup"@.len(), file.len() as int) =~= ".ddup"@);
    assert(text::without_suffix(file, ".ddup"@) =~= name);
}

/// What a backup or a migration writes to until it is whole is never listed as an archive, and is
/// known as a leftover.
pub proof fn unfinished_is_never_listed(bytes: Seq<u8>)
    ensures
        archive_names(seq![Some(".partial-"@ + short_digest(bytes))]).len() == 0,
        archive_names(seq![Some(".migrate-"@ + short_digest(bytes))]).len() == 0,
        text::has_prefix(".partial-"@ + short_digest(bytes), ".partial-"@),
        text::has_prefix(".migrate-"@ + short_digest(bytes), ".migrate-"@),
{
    unfinished_prefix(".partial-"@, bytes);
    unfinished_prefix(".migrate-"@, bytes);
}

proof fn unfinished_prefix(prefix: Seq<char>, bytes: Seq<u8>)
    ensures
        archive_names(seq![Some(prefix + short_digest(bytes))]).len() == 0,
        text::has_prefix(prefix + short_digest(bytes), prefix),
{
    reveal_strlit(".ddup");
    let digest = short_digest(bytes);
    let file = prefix + digest;
    let files = seq![Some(file)];
    assert(digest.len() == 16);
    assert(file.subrange(0, prefix.len() as int) =~= prefix);
    assert(files.drop_last() =~= Seq::empty());
    assert(archive_names(files.drop_last()) =~= Seq::empty());
    if text::has_suffix(file, ".ddup"@) {
        let end = file.subrange(file.len() - 5, file.len() as int);
        assert(end[4] == file[file.len() - 1]);
        assert(file[file.len() - 1] == digest[15]);
        assert(".ddup"@[4] == 'p');
    }
}

fn contains_char(text: &str, wanted: char) -> (found: bool)
    ensures
        found == text@.contains(wanted),
{
    let len: usize = text.unicode_len();
    let mut i: usize = 0;
    while i < len
        invariant
            i <= len,
            len == text@.len(),
            forall|j: int| 0 <= j < i ==> text@[j] != wanted,
        decreases len - i,
    {
        if text.get_char(i) == wanted {
            assert(text@[i as int] == wanted);
            return true;
        }
        i = i + 1;
    }
    false
}

/// Refuses a name that would not stay where it is put.
pub fn validate_name(name: &str) -> (result: Result<(), Error>)
    ensures
        result is Ok <==> valid_name(name@),
        result is Err ==> result->Err_0@ == invalid_name_model(name@),
        result is Ok <==> name@.len() > 0 && name@ != "."@ && name@ != ".."@ && !name@.contains('/')
            && !name@.contains('\0') && encode_utf8(name@).len() <= 255,
        result is Err ==> result->Err_0.kind is InvalidInput && result->Err_0.message@
            == "invalid name: "@ + name@,
{
    if name.unicode_len() == 0 || text::same_text(name, ".") || text::same_text(name, "..")
        || contains_char(name, '/') || contains_char(name, '\0') || text::byte_len(name)
        > MAX_NAME_LEN {
        return Err(Error::new(ErrorKind::InvalidInput, text::join2("invalid name: ", name)));
    }
    Ok(())
}

impl Repository {
    /// The file of an archive, below the repository's directory.
    pub fn archive_path(name: &str) -> (path: Result<String, Error>)
        ensures
            path is Ok <==> valid_name(name@),
            path is Ok ==> path->Ok_0@ == ".ddup-bak/archives/"@ + name@ + ".ddup"@,
            path is Ok <==> name@.len() > 0 && name@ != "."@ && name@ != ".."@ && !name@.contains('/')
                && !name@.contains('\0') && encode_utf8(name@).len() <= 255,
            path is Err ==> path->Err_0@ == invalid_name_model(name@),
    {
        match validate_name(name) {
            Ok(()) => Ok(text::join3(".ddup-bak/archives/", name, ".ddup")),
            Err(err) => Err(err),
        }
    }
}

impl Repository {
    /// The directory that an archive is restored into, below the repository's directory.
    pub fn restored_path(name: &str) -> (path: Result<String, Error>)
        ensures
            path is Ok <==> valid_name(name@),
            path is Ok ==> path->Ok_0@ == ".ddup-bak/archives-restored/"@ + name@,
            path is Ok <==> name@.len() > 0 && name@ != "."@ && name@ != ".."@ && !name@.contains('/')
                && !name@.contains('\0') && encode_utf8(name@).len() <= 255,
            path is Err ==> path->Err_0@ == invalid_name_model(name@),
    {
        match validate_name(name) {
            Ok(()) => Ok(text::join2(".ddup-bak/archives-restored/", name)),
            Err(err) => Err(err),
        }
    }
}

/// The file that a backup is written to until it is whole. The hashed name fits any archive name,
/// and replaces what an earlier backup of that name left.
pub fn partial_file(name: &str) -> (file: String)
    ensures
        file@ == ".partial-"@ + short_digest(encode_utf8(name@)),
        file@ == ".partial-"@ + hash::hex_text(hash::blake3_256(encode_utf8(name@))@).take(16),
{
    let digest = short_hex(name.as_bytes());
    text::join2(".partial-", digest.as_str())
}

/// The file that an archive is migrated into until it is whole.
pub fn migrate_file(name: &str) -> (file: String)
    ensures
        file@ == ".migrate-"@ + short_digest(encode_utf8(name@)),
        file@ == ".migrate-"@ + hash::hex_text(hash::blake3_256(encode_utf8(name@))@).take(16),
{
    let digest = short_hex(name.as_bytes());
    text::join2(".migrate-", digest.as_str())
}

/// The lock that restores into one destination take in turn. `path` is the destination's path in
/// bytes.
pub fn destination_lock(path: &[u8]) -> (file: String)
    ensures
        file@ == "destination-"@ + short_digest(path@),
        file@ == "destination-"@ + hash::hex_text(hash::blake3_256(path@)@).take(16),
{
    let digest = short_hex(path);
    text::join2("destination-", digest.as_str())
}

fn short_hex(bytes: &[u8]) -> (digest: String)
    ensures
        digest@ == short_digest(bytes@),
{
    let digits = hex(&blake3_digest(bytes));
    let short = digits.as_str().substring_char(0, 16).to_owned();
    assert(short@ =~= short_digest(bytes@));
    short
}

/// Whether a file in the archive directory was left by an interrupted backup or migration.
pub fn is_leftover(file: &str) -> (leftover: bool)
    ensures
        leftover == (text::has_prefix(file@, ".partial-"@) || text::has_prefix(
            file@,
            ".migrate-"@,
        )),
{
    text::starts_with(file, ".partial-") || text::starts_with(file, ".migrate-")
}

/// Whether a path relative to the backup root lies in a repository's own directory.
pub fn is_repository_internal(parts: &Parts) -> (internal: bool)
    ensures
        internal == internal_path(tree::path_model(parts@)),
        internal <==> exists|i: int|
            0 <= i < parts@.len() && (#[trigger] parts@[i]) is Some && (parts@[i]->0@
                == ".ddup-bak"@ || parts@[i]->0@ == ".ddup-bak-restore"@),
{
    let mut i: usize = 0;
    let ghost model = tree::path_model(parts@);
    while i < parts.len()
        invariant
            i <= parts@.len(),
            model == tree::path_model(parts@),
            forall|j: int|
                0 <= j < i ==> #[trigger] model[j] != Some(".ddup-bak"@) && model[j] != Some(
                    ".ddup-bak-restore"@,
                ),
        decreases parts@.len() - i,
    {
        if let Some(part) = &parts[i] {
            if text::same_text(part.as_str(), ".ddup-bak") || text::same_text(
                part.as_str(),
                ".ddup-bak-restore",
            ) {
                assert(model[i as int] == Some(part@));
                assert(parts@[i as int] is Some);
                return true;
            }
        }
        i = i + 1;
    }
    proof {
        assert forall|j: int| 0 <= j < parts@.len() && (#[trigger] parts@[j]) is Some implies
            parts@[j]->0@ != ".ddup-bak"@ && parts@[j]->0@ != ".ddup-bak-restore"@ by {
            assert(model[j] == Some(parts@[j]->0@));
        }
    }
    false
}

impl Repository {
    /// The archives among the files of the archive directory. A file name that is not Unicode is
    /// `None`.
    pub fn list_archives(files: &Parts) -> (names: Vec<String>)
        ensures
            texts(names@) == archive_names(tree::path_model(files@)),
    {
        let mut names: Vec<String> = Vec::new();
        let mut i: usize = 0;
        let ghost model = tree::path_model(files@);
        assert(model.take(0) =~= Seq::empty());
        assert(texts(names@) =~= Seq::empty());
        while i < files.len()
            invariant
                i <= files@.len(),
                model == tree::path_model(files@),
                texts(names@) == archive_names(model.take(i as int)),
            decreases files@.len() - i,
        {
            assert(model.take(i + 1).drop_last() =~= model.take(i as int));
            let ghost before = names@;
            if let Some(file) = &files[i] {
                if let Some(name) = text::strip_suffix(file.as_str(), ".ddup") {
                    names.push(name.to_owned());
                    assert(texts(names@) =~= texts(before).push(name@));
                }
            }
            i = i + 1;
        }
        assert(model.take(i as int) =~= model);
        names
    }
}

/// The archive name in a marker's file name.
pub fn pending_name(file: &str) -> (name: Option<String>)
    ensures
        match (name, pending_of(file@)) {
            (Some(name), Some(name_spec)) => name@ == name_spec,
            (None, None) => true,
            _ => false,
        },
{
    if let Some(name) = text::strip_suffix(file, ".ddup") {
        return Some(name.to_owned());
    }
    let len: usize = file.unicode_len();
    let mut rest: usize = len;
    assert(file@.take(len as int) =~= file@);
    while rest > 0 && is_digit(file.get_char(rest - 1))
        invariant
            rest <= len,
            len == file@.len(),
            trailing_digits(file@) == trailing_digits(file@.take(rest as int)) + (len - rest),
        decreases rest,
    {
        assert(file@.take(rest as int).drop_last() =~= file@.take(rest - 1));
        rest = rest - 1;
    }
    let stem = file.substring_char(0, rest);
    assert(stem@ =~= file@.take(rest as int));
    assert(trailing_digits(stem@) == 0);
    if rest == len {
        return None;
    }
    match text::strip_suffix(stem, ".ddup.") {
        Some(name) => Some(name.to_owned()),
        None => None,
    }
}

fn is_digit(c: char) -> (digit: bool)
    ensures
        digit == text::is_decimal_digit(c),
{
    '0' <= c && c <= '9'
}

/// The file name of the marker with number `n` for an archive that is being deleted.
pub fn marker_candidate(name: &str, n: u64) -> (file: String)
    ensures
        file@ == marker_file(name@, n),
        n == 0 ==> file@ == name@ + ".ddup"@,
        n > 0 ==> file@ == if encode_utf8(name@).len() + encode_utf8(
            ".ddup."@ + text::decimal_text(n as nat),
        ).len() <= 255 {
            name@ + (".ddup."@ + text::decimal_text(n as nat))
        } else {
            ".ddup."@ + text::decimal_text(n as nat)
        },
{
    if n == 0 {
        return text::join2(name, ".ddup");
    }
    let number = text::decimal(n);
    let suffix = text::join2(".ddup.", number.as_str());
    let name_len: usize = text::byte_len(name);
    let suffix_len: usize = text::byte_len(suffix.as_str());
    if suffix_len <= MAX_NAME_LEN && name_len <= MAX_NAME_LEN - suffix_len {
        text::join2(name, suffix.as_str())
    } else {
        suffix
    }
}

/// Texts by value, one for each and in order.
pub proof fn texts_in_order(strings: Seq<String>, i: int)
    requires
        0 <= i < strings.len(),
    ensures
        texts(strings).len() == strings.len(),
        texts(strings)[i] == strings[i]@,
{
}

/// The files of a directory are listed one by one, in order: a name with `.ddup` behind it as the
/// name, and nothing else.
pub proof fn archives_are_listed_in_order(files: Seq<Option<Seq<char>>>, file: Seq<char>)
    ensures
        archive_names(Seq::empty()) == Seq::<Seq<char>>::empty(),
        archive_names(files.push(Some(file + ".ddup"@))) == archive_names(files).push(file),
        archive_names(files.push(None)) == archive_names(files),
        (forall|name: Seq<char>| file != #[trigger] (name + ".ddup"@)) ==> archive_names(
            files.push(Some(file)),
        ) == archive_names(files),
{
    let whole = file + ".ddup"@;
    text::suffix_is_the_back(whole, ".ddup"@);
    text::suffix_is_the_back(file, ".ddup"@);
    assert(whole == file + ".ddup"@);
    assert(text::without_suffix(whole, ".ddup"@) =~= file);
    assert(files.push(Some(whole)).drop_last() =~= files);
    assert(files.push(Some(file)).drop_last() =~= files);
    assert(files.push(None).drop_last() =~= files);
}

/// A path is a repository's own exactly if one of its parts is the name of such a directory.
pub proof fn internal_by_its_parts(parts: Seq<Option<Seq<char>>>)
    ensures
        internal_path(parts) <==> parts.contains(Some(".ddup-bak"@)) || parts.contains(
            Some(".ddup-bak-restore"@),
        ),
{
    if internal_path(parts) {
        let i = choose|i: int|
            0 <= i < parts.len() && (#[trigger] parts[i] == Some(".ddup-bak"@) || parts[i] == Some(
                ".ddup-bak-restore"@,
            ));
        assert(parts.contains(parts[i]));
    }
    if parts.contains(Some(".ddup-bak"@)) {
        let i = choose|i: int| 0 <= i < parts.len() && parts[i] == Some(".ddup-bak"@);
        assert(parts[i] == Some(".ddup-bak"@));
    }
    if parts.contains(Some(".ddup-bak-restore"@)) {
        let i = choose|i: int| 0 <= i < parts.len() && parts[i] == Some(".ddup-bak-restore"@);
        assert(parts[i] == Some(".ddup-bak-restore"@));
    }
}

/// Texts sort by the first character that differs, and a text in front of those that continue it.
pub proof fn sorting_by_the_first_difference(a: Seq<char>, b: Seq<char>, k: int)
    requires
        0 <= k <= a.len(),
        k <= b.len(),
        forall|i: int| 0 <= i < k ==> #[trigger] a[i] == b[i],
    ensures
        k < a.len() && k < b.len() && a[k] != b[k] ==> (sorts_before(a, b) <==> a[k] < b[k]),
        k == a.len() ==> (sorts_before(a, b) <==> k < b.len()),
        k == b.len() ==> !sorts_before(a, b),
    decreases k,
{
    if k > 0 {
        assert(a[0] == b[0]);
        let x = a.drop_first();
        let y = b.drop_first();
        assert forall|i: int| 0 <= i < k - 1 implies #[trigger] x[i] == y[i] by {
            assert(a[i + 1] == b[i + 1]);
        }
        sorting_by_the_first_difference(x, y, k - 1);
    }
}

} // verus!
