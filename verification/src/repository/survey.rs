//! How much of each archive can be read, and what that allows.
use crate::chunks::hash::ChunkHash;
use crate::entries;
use crate::entries::{collect_hashes, Entry};
use crate::error;
use crate::error::{is_damage, Error, ErrorKind};
use crate::repository::names;
use crate::text;
use crate::repository::settings::Repository;
use vstd::prelude::*;

verus! {

/// The archive format that is written and read.
pub const FILE_VERSION: u8 = 2;

/// An archive whose entry table has been read.
#[derive(Debug)]
pub struct OpenArchive {
    pub version: u8,
    pub entries: Vec<Entry>,
}

/// How much of an archive this build can read.
#[derive(Debug, Clone, Copy, PartialEq, Eq, Structural)]
pub enum Readability {
    Whole,
    Damaged,
    Unsupported,
}

/// An archive, how much of it can be read, and the chunks it is made of if that is all of it.
#[derive(Debug)]
pub struct Survey {
    pub name: String,
    pub readability: Readability,
    pub hashes: Vec<ChunkHash>,
}

/// Why an archive of another format cannot be used.
pub open spec fn version_reason(version: u8, index_path: Seq<char>) -> Seq<char> {
    if version < FILE_VERSION {
        "it is migrated when the repository is opened, which needs "@ + index_path
            + ". Restore that file and open the repository again; the chunk ids in a format "@
            + text::decimal_text(version as nat)
            + " archive cannot be resolved without it"@
    } else {
        "it was written by a newer version of ddup-bak"@
    }
}

pub open spec fn version_model(name: Seq<char>, version: u8, index_path: Seq<char>) -> error::ErrorModel {
    error::error_model(
        ErrorKind::Unsupported,
        "archive "@ + name + " is in format version "@ + text::decimal_text(version as nat)
            + ", this build reads version 2: "@ + version_reason(version, index_path),
    )
}

/// What getting an archive gives: its entries, if it is in the format of this build.
pub open spec fn got_archive(
    name: Seq<char>,
    opened: Result<OpenArchive, Error>,
    index_path: Seq<char>,
) -> Result<Seq<Entry>, error::ErrorModel> {
    match opened {
        Ok(archive) => if archive.version != FILE_VERSION {
            Err(version_model(name, archive.version, index_path))
        } else {
            Ok(archive.entries@)
        },
        Err(err) => Err(err@),
    }
}

/// Entries, or an error, by value.
pub open spec fn entries_model(result: Result<Vec<Entry>, Error>) -> Result<
    Seq<Entry>,
    error::ErrorModel,
> {
    match result {
        Ok(entries) => Ok(entries@),
        Err(err) => Err(err@),
    }
}

/// How much of an archive can be read, and its chunks if that is all of it. An error that is
/// neither damage nor a lack of support says nothing about the archive and is passed on.
pub open spec fn surveyed(got: Result<Seq<Entry>, error::ErrorModel>) -> Result<
    (Readability, Seq<ChunkHash>),
    error::ErrorModel,
> {
    match got {
        Err(err) => if error::damage_kind(err.kind) || err.kind == ErrorKind::Unsupported {
            Ok((Readability::Damaged, Seq::empty()))
        } else {
            Err(err)
        },
        Ok(entries) => match entries::tree_hashes(entries) {
            Ok(hashes) => Ok((Readability::Whole, hashes)),
            Err(err) => if error::damage_kind(err.kind) {
                Ok((Readability::Damaged, Seq::empty()))
            } else if err.kind == ErrorKind::Unsupported {
                Ok((Readability::Unsupported, Seq::empty()))
            } else {
                Err(err)
            },
        },
    }
}

/// The names of the archives that cannot be read whole, in order.
pub open spec fn unreadable_names(surveys: Seq<Survey>) -> Seq<Seq<char>>
    decreases surveys.len(),
{
    if surveys.len() == 0 {
        Seq::empty()
    } else if surveys.last().readability != Readability::Whole {
        unreadable_names(surveys.drop_last()).push(surveys.last().name@)
    } else {
        unreadable_names(surveys.drop_last())
    }
}

/// The names of the archives to count references from, skipping damaged ones. Skipping one that
/// another build could read would undercount chunks that it still needs.
pub open spec fn countable_names(surveys: Seq<Survey>) -> Result<Seq<Seq<char>>, error::ErrorModel>
    decreases surveys.len(),
{
    if surveys.len() == 0 {
        Ok(Seq::empty())
    } else {
        match countable_names(surveys.drop_last()) {
            Ok(names) => match surveys.last().readability {
                Readability::Whole => Ok(names.push(surveys.last().name@)),
                Readability::Damaged => Ok(names),
                Readability::Unsupported => Err(uncountable_model(surveys.last().name@)),
            },
            Err(err) => Err(err),
        }
    }
}

pub open spec fn uncountable_model(name: Seq<char>) -> error::ErrorModel {
    error::error_model(
        ErrorKind::Unsupported,
        "archive "@ + name
            + " uses a compression this build was made without, so its chunks cannot be counted; use a build that has it"@,
    )
}

/// Texts with a comma between them.
pub open spec fn comma_joined(names: Seq<Seq<char>>) -> Seq<char>
    decreases names.len(),
{
    if names.len() == 0 {
        Seq::empty()
    } else if names.len() == 1 {
        names[0]
    } else {
        comma_joined(names.drop_last()) + ", "@ + names.last()
    }
}

pub open spec fn refusal_model(unreadable: Seq<Seq<char>>) -> error::ErrorModel {
    error::error_model(
        ErrorKind::Unsupported,
        "cannot delete chunks while "@ + comma_joined(unreadable)
            + " cannot be read: the chunks they hold are unaccounted for and would be taken as unreferenced. Open one of them to see what is wrong, or delete its file to give up on it"@,
    )
}

/// The chunks of all archives that can be read, one archive after the other.
pub open spec fn live_hashes(surveys: Seq<Survey>) -> Seq<ChunkHash>
    decreases surveys.len(),
{
    if surveys.len() == 0 {
        Seq::empty()
    } else {
        live_hashes(surveys.drop_last()) + surveys.last().hashes@
    }
}

impl Repository {
    /// Gets the entries of an archive that was opened. Opening a repository migrates format 1
    /// archives, so meeting one here means that its index was unreadable.
    pub fn get_archive(name: &str, opened: Result<OpenArchive, Error>, index_path: &str) -> (got: Result<
        Vec<Entry>,
        Error,
    >)
        ensures
            entries_model(got) == got_archive(name@, opened, index_path@),
    {
        let archive = match opened {
            Ok(archive) => archive,
            Err(err) => return Err(err),
        };
        if archive.version == FILE_VERSION {
            return Ok(archive.entries);
        }
        let version = text::decimal(archive.version as u64);
        let reason = if archive.version < FILE_VERSION {
            let mut reason = text::join4(
                "it is migrated when the repository is opened, which needs ",
                index_path,
                ". Restore that file and open the repository again; the chunk ids in a format ",
                version.as_str(),
            );
            reason.append(" archive cannot be resolved without it");
            reason
        } else {
            "it was written by a newer version of ddup-bak".to_owned()
        };
        let mut message = text::join4(
            "archive ",
            name,
            " is in format version ",
            version.as_str(),
        );
        message.append(", this build reads version 2: ");
        message.append(reason.as_str());
        Err(Error::new(ErrorKind::Unsupported, message))
    }
}

/// Finds out how much of an archive can be read.
pub fn survey(name: &str, got: Result<Vec<Entry>, Error>) -> (survey: Result<Survey, Error>)
    ensures
        match (survey, surveyed(entries_model(got))) {
            (Ok(survey), Ok((readability, hashes))) => survey.name@ == name@ && survey.readability
                == readability && survey.hashes@ == hashes,
            (Err(err), Err(err_spec)) => err@ == err_spec,
            _ => false,
        },
{
    let entries = match got {
        Ok(entries) => entries,
        Err(err) => {
            if is_damage(&err) || err.kind == ErrorKind::Unsupported {
                return Ok(
                    Survey {
                        name: name.to_owned(),
                        readability: Readability::Damaged,
                        hashes: Vec::new(),
                    },
                );
            }
            return Err(err);
        },
    };
    let mut hashes: Vec<ChunkHash> = Vec::new();
    match collect_hashes(&entries, &mut hashes) {
        Ok(()) => {
            assert(hashes@ =~= entries::tree_hashes(entries@)->Ok_0);
            Ok(Survey { name: name.to_owned(), readability: Readability::Whole, hashes })
        },
        Err(err) => {
            let readability = if is_damage(&err) {
                Readability::Damaged
            } else if err.kind == ErrorKind::Unsupported {
                Readability::Unsupported
            } else {
                return Err(err);
            };
            Ok(Survey { name: name.to_owned(), readability, hashes: Vec::new() })
        },
    }
}

impl Repository {
    /// The archives that cannot be read whole.
    pub fn unreadable_archives(surveys: &Vec<Survey>) -> (unreadable: Vec<String>)
        ensures
            names::texts(unreadable@) == unreadable_names(surveys@),
    {
        let mut unreadable: Vec<String> = Vec::new();
        let mut i: usize = 0;
        assert(surveys@.take(0) =~= Seq::empty());
        assert(names::texts(unreadable@) =~= Seq::empty());
        while i < surveys.len()
            invariant
                i <= surveys@.len(),
                names::texts(unreadable@) == unreadable_names(surveys@.take(i as int)),
            decreases surveys@.len() - i,
        {
            assert(surveys@.take(i + 1).drop_last() =~= surveys@.take(i as int));
            let ghost before = unreadable@;
            if surveys[i].readability != Readability::Whole {
                unreadable.push(surveys[i].name.clone());
                assert(names::texts(unreadable@) =~= names::texts(before).push(
                    surveys@[i as int].name@,
                ));
            }
            i = i + 1;
        }
        assert(surveys@.take(i as int) =~= surveys@);
        unreadable
    }
}

fn join_names(list: &Vec<String>) -> (joined: String)
    ensures
        joined@ == comma_joined(names::texts(list@)),
{
    let mut joined = String::new();
    let mut i: usize = 0;
    let ghost model = names::texts(list@);
    assert(model.take(0) =~= Seq::empty());
    while i < list.len()
        invariant
            i <= list@.len(),
            model == names::texts(list@),
            joined@ == comma_joined(model.take(i as int)),
        decreases list@.len() - i,
    {
        assert(model.take(i + 1).drop_last() =~= model.take(i as int));
        if i > 0 {
            joined.append(", ");
        }
        joined.append(list[i].as_str());
        assert(i == 0 ==> joined@ =~= model[0]);
        i = i + 1;
    }
    assert(model.take(i as int) =~= model);
    joined
}

/// Refuses to delete chunks while there are archives that cannot be read.
pub fn refuse_deletion(unreadable: &Vec<String>) -> (result: Result<(), Error>)
    ensures
        result is Ok <==> unreadable@.len() == 0,
        result is Err ==> result->Err_0@ == refusal_model(names::texts(unreadable@)),
        result is Err ==> result->Err_0.kind is Unsupported && result->Err_0.message@
            == "cannot delete chunks while "@ + comma_joined(names::texts(unreadable@))
            + " cannot be read: the chunks they hold are unaccounted for and would be taken as unreferenced. Open one of them to see what is wrong, or delete its file to give up on it"@,
{
    if unreadable.len() == 0 {
        return Ok(());
    }
    let joined = join_names(unreadable);
    Err(
        Error::new(
            ErrorKind::Unsupported,
            text::join3(
                "cannot delete chunks while ",
                joined.as_str(),
                " cannot be read: the chunks they hold are unaccounted for and would be taken as unreferenced. Open one of them to see what is wrong, or delete its file to give up on it",
            ),
        ),
    )
}

/// The archives to count references from, skipping damaged and unmigrated ones.
pub fn countable_archives(surveys: &Vec<Survey>) -> (countable: Result<Vec<String>, Error>)
    ensures
        match (countable, countable_names(surveys@)) {
            (Ok(names), Ok(names_spec)) => names::texts(names@) == names_spec,
            (Err(err), Err(err_spec)) => err@ == err_spec,
            _ => false,
        },
{
    let mut countable: Vec<String> = Vec::new();
    let mut i: usize = 0;
    assert(surveys@.take(0) =~= Seq::empty());
    assert(names::texts(countable@) =~= Seq::empty());
    while i < surveys.len()
        invariant
            i <= surveys@.len(),
            countable_names(surveys@.take(i as int)) is Ok,
            names::texts(countable@) == countable_names(surveys@.take(i as int))->Ok_0,
        decreases surveys@.len() - i,
    {
        assert(surveys@.take(i + 1).drop_last() =~= surveys@.take(i as int));
        let ghost before = countable@;
        match surveys[i].readability {
            Readability::Whole => {
                countable.push(surveys[i].name.clone());
                assert(names::texts(countable@) =~= names::texts(before).push(
                    surveys@[i as int].name@,
                ));
            },
            Readability::Damaged => {},
            Readability::Unsupported => {
                proof {
                    uncountable_prefix(surveys@, i + 1);
                }
                return Err(
                    Error::new(
                        ErrorKind::Unsupported,
                        text::join3(
                            "archive ",
                            surveys[i].name.as_str(),
                            " uses a compression this build was made without, so its chunks cannot be counted; use a build that has it",
                        ),
                    ),
                );
            },
        }
        i = i + 1;
    }
    assert(surveys@.take(i as int) =~= surveys@);
    Ok(countable)
}

proof fn uncountable_prefix(surveys: Seq<Survey>, n: int)
    requires
        0 <= n <= surveys.len(),
        countable_names(surveys.take(n)) is Err,
    ensures
        countable_names(surveys) == countable_names(surveys.take(n)),
    decreases surveys.len() - n,
{
    if n < surveys.len() {
        assert(surveys.take(n + 1).drop_last() =~= surveys.take(n));
        uncountable_prefix(surveys, n + 1);
    } else {
        assert(surveys.take(n) =~= surveys);
    }
}

/// The chunks that the archives are made of.
pub fn collect_live(surveys: &Vec<Survey>) -> (hashes: Vec<ChunkHash>)
    ensures
        hashes@ == live_hashes(surveys@),
{
    let mut hashes: Vec<ChunkHash> = Vec::new();
    let mut i: usize = 0;
    assert(surveys@.take(0) =~= Seq::empty());
    while i < surveys.len()
        invariant
            i <= surveys@.len(),
            hashes@ == live_hashes(surveys@.take(i as int)),
        decreases surveys@.len() - i,
    {
        assert(surveys@.take(i + 1).drop_last() =~= surveys@.take(i as int));
        let ghost before = hashes@;
        let mut k: usize = 0;
        while k < surveys[i as usize].hashes.len()
            invariant
                i < surveys@.len(),
                k <= surveys@[i as int].hashes@.len(),
                hashes@ == before + surveys@[i as int].hashes@.take(k as int),
            decreases surveys@[i as int].hashes@.len() - k,
        {
            hashes.push(surveys[i].hashes[k]);
            assert(hashes@ =~= before + surveys@[i as int].hashes@.take(k + 1));
            k = k + 1;
        }
        assert(surveys@[i as int].hashes@.take(k as int) =~= surveys@[i as int].hashes@);
        i = i + 1;
    }
    assert(surveys@.take(i as int) =~= surveys@);
    hashes
}

/// How much of an archive can be read: all of it, with its chunks, if every chunk list can be read.
/// Corrupt data and a list that another build could read are told apart; an archive that cannot be
/// opened by this build counts as damaged; any other error is passed on.
pub proof fn readability_of_an_archive(got: Result<Seq<Entry>, error::ErrorModel>)
    ensures
        match got {
            Ok(entries) => match entries::tree_hashes(entries) {
                Ok(hashes) => surveyed(got) == Ok::<_, error::ErrorModel>(
                    (Readability::Whole, hashes),
                ),
                Err(err) => if err.kind is InvalidData || err.kind is InvalidInput || err.kind
                    is UnexpectedEof {
                    surveyed(got) is Ok && surveyed(got)->Ok_0.0 is Damaged && surveyed(
                        got,
                    )->Ok_0.1.len() == 0
                } else if err.kind is Unsupported {
                    surveyed(got) is Ok && surveyed(got)->Ok_0.0 is Unsupported && surveyed(
                        got,
                    )->Ok_0.1.len() == 0
                } else {
                    surveyed(got) == Err::<(Readability, Seq<ChunkHash>), _>(err)
                },
            },
            Err(err) => if err.kind is InvalidData || err.kind is InvalidInput || err.kind
                is UnexpectedEof || err.kind is Unsupported {
                surveyed(got) is Ok && surveyed(got)->Ok_0.0 is Damaged && surveyed(
                    got,
                )->Ok_0.1.len() == 0
            } else {
                surveyed(got) == Err::<(Readability, Seq<ChunkHash>), _>(err)
            },
        },
{
}

/// An archive that was opened gives its entries exactly if it is in format 2; one in another format
/// is not supported.
pub proof fn archives_of_this_format_are_got(
    name: Seq<char>,
    opened: Result<OpenArchive, Error>,
    index_path: Seq<char>,
)
    ensures
        match opened {
            Ok(archive) => if archive.version == 2 {
                got_archive(name, opened, index_path) == Ok::<_, error::ErrorModel>(
                    archive.entries@,
                )
            } else {
                &&& got_archive(name, opened, index_path) is Err
                &&& got_archive(name, opened, index_path)->Err_0.kind is Unsupported
            },
            Err(err) => got_archive(name, opened, index_path) == Err::<Seq<Entry>, _>(err@),
        },
{
}

/// What surveys say, archive by archive and in order: those that are not whole are unreadable,
/// those that are whole are counted from, one that another build could read keeps all from being
/// counted, and the chunks of all of them are live.
pub proof fn surveys_archive_by_archive(front: Seq<Survey>, last: Survey)
    ensures
        unreadable_names(Seq::empty()) == Seq::<Seq<char>>::empty(),
        unreadable_names(front.push(last)) == if last.readability is Whole {
            unreadable_names(front)
        } else {
            unreadable_names(front).push(last.name@)
        },
        live_hashes(Seq::empty()) == Seq::<ChunkHash>::empty(),
        live_hashes(front.push(last)) == live_hashes(front) + last.hashes@,
        countable_names(Seq::empty()) == Ok::<_, error::ErrorModel>(Seq::<Seq<char>>::empty()),
        countable_names(front) is Err ==> countable_names(front.push(last)) == countable_names(
            front,
        ),
        countable_names(front) is Ok ==> match last.readability {
            Readability::Whole => countable_names(front.push(last)) == Ok::<_, error::ErrorModel>(
                countable_names(front)->Ok_0.push(last.name@),
            ),
            Readability::Damaged => countable_names(front.push(last)) == countable_names(front),
            Readability::Unsupported => countable_names(front.push(last)) is Err
                && countable_names(front.push(last))->Err_0.kind is Unsupported,
        },
{
    assert(front.push(last).drop_last() =~= front);
}

/// Names in a message are separated by a comma and a space.
pub proof fn names_are_separated(front: Seq<Seq<char>>, last: Seq<char>)
    ensures
        comma_joined(Seq::empty()) == Seq::<char>::empty(),
        comma_joined(seq![last]) == last,
        front.len() > 0 ==> comma_joined(front.push(last)) == comma_joined(front) + ", "@ + last,
{
    assert(front.push(last).drop_last() =~= front);
}

/// Entries, or an error, by value.
pub proof fn entries_by_value(entries: Vec<Entry>, err: Error)
    ensures
        entries_model(Ok(entries)) == Ok::<_, error::ErrorModel>(entries@),
        entries_model(Err(err)) == Err::<Seq<Entry>, _>(err@),
{
}

/// What is said of an archive that cannot be used names it: one in an older format needs the index
/// that resolves its ids, and one that another build could read keeps chunks from being counted.
pub proof fn unusable_archives_are_named(name: Seq<char>, version: u8, index_path: Seq<char>)
    ensures
        version_model(name, version, index_path).message == "archive "@ + name
            + " is in format version "@ + text::decimal_text(version as nat)
            + ", this build reads version 2: "@ + if version < 2 {
            "it is migrated when the repository is opened, which needs "@ + index_path
                + ". Restore that file and open the repository again; the chunk ids in a format "@
                + text::decimal_text(version as nat)
                + " archive cannot be resolved without it"@
        } else {
            "it was written by a newer version of ddup-bak"@
        },
        uncountable_model(name).message == "archive "@ + name
            + " uses a compression this build was made without, so its chunks cannot be counted; use a build that has it"@,
{
}

} // verus!
