//! What becomes of one file once it was read, and of the outcomes of all
//! files once every one of them is in.

use crate::digest::{content_hash_of, hash_content, HashAlgorithm};
use crate::record::{record_views, FileRecord, FileRecordView, Timestamp};
use vstd::prelude::*;

verus! {

/// Which path a record stores.
#[derive(Clone, Copy, Debug, PartialEq, Eq, Structural)]
pub enum PathMode {
    /// The path as the walk found it.
    AsFound,
    /// The path resolved to an absolute one.
    Canonical,
}

/// Why a file is missing from the manifest.
#[derive(Clone, Copy, Debug, PartialEq, Eq, Structural)]
pub enum FailureKind {
    /// The file could not be opened, or not read to its end.
    Access,
    /// The file was read, but its modification time could not be had.
    Metadata,
}

/// A file that was left out, and why.
#[derive(Debug, PartialEq, Eq)]
pub struct FileError {
    pub path: String,
    pub kind: FailureKind,
    pub cause: String,
}

/// A failure as the contracts see it.
pub struct FileErrorView {
    pub path: Seq<char>,
    pub kind: FailureKind,
    pub cause: Seq<char>,
}

impl View for FileError {
    type V = FileErrorView;

    open spec fn view(&self) -> FileErrorView {
        FileErrorView { path: self.path@, kind: self.kind, cause: self.cause@ }
    }
}

/// What a list of failures holds.
pub open spec fn error_views(v: Seq<FileError>) -> Seq<FileErrorView> {
    Seq::new(v.len(), |i: int| v[i]@)
}

/// The path that a record stores under the given mode: the canonical one
/// where that is asked for and could be had, else the path as found.
pub open spec fn stored_path_of(
    mode: PathMode,
    found: Seq<char>,
    canonical: Option<Seq<char>>,
) -> Seq<char> {
    match (mode, canonical) {
        (PathMode::Canonical, Some(full)) => full,
        _ => found,
    }
}

/// Picks the path that a record stores.
pub fn stored_path(mode: PathMode, found: String, canonical: Option<String>) -> (path: String)
    ensures
        path@ == stored_path_of(
            mode,
            found@,
            match canonical {
                Some(full) => Some(full@),
                None => None,
            },
        ),
{
    match mode {
        PathMode::AsFound => found,
        PathMode::Canonical => match canonical {
            Some(full) => full,
            None => found,
        },
    }
}

/// Turns what was read of one file into its record, or into the failure to
/// report: a file that could not be read fails as `Access`, with the cause
/// given; one that was read but has no modification time fails as
/// `Metadata`; any other file gets a record with the hash of its content.
pub fn process(
    algorithm: HashAlgorithm,
    path: String,
    content: Result<Vec<u8>, String>,
    modified: Result<Timestamp, String>,
) -> (outcome: Result<FileRecord, FileError>)
    ensures
        content matches Err(cause) ==> outcome matches Err(e) && e@ == (FileErrorView {
            path: path@,
            kind: FailureKind::Access,
            cause: cause@,
        }),
        content is Ok ==> (modified matches Err(cause) ==> outcome matches Err(e) && e@ == (
        FileErrorView { path: path@, kind: FailureKind::Metadata, cause: cause@ })),
        content matches Ok(bytes) ==> (modified matches Ok(stamp) ==> outcome matches Ok(r) && r@
            == (FileRecordView {
            file: path@,
            hash: content_hash_of(algorithm, bytes@),
            timestamp_mod: stamp@,
        })),
{
    match content {
        Err(cause) => Err(FileError { path, kind: FailureKind::Access, cause }),
        Ok(bytes) => match modified {
            Err(cause) => Err(FileError { path, kind: FailureKind::Metadata, cause }),
            Ok(stamp) => {
                let hash = hash_content(algorithm, bytes.as_slice());
                Ok(FileRecord::new(path, hash, stamp))
            },
        },
    }
}

/// The records among the outcomes, in their order.
pub open spec fn successes(outcomes: Seq<Result<FileRecord, FileError>>) -> Seq<FileRecordView>
    decreases outcomes.len(),
{
    if outcomes.len() == 0 {
        Seq::empty()
    } else {
        let before = successes(outcomes.drop_last());
        match outcomes.last() {
            Ok(record) => before.push(record@),
            Err(_) => before,
        }
    }
}

/// The failures among the outcomes, in their order.
pub open spec fn failures(outcomes: Seq<Result<FileRecord, FileError>>) -> Seq<FileErrorView>
    decreases outcomes.len(),
{
    if outcomes.len() == 0 {
        Seq::empty()
    } else {
        let before = failures(outcomes.drop_last());
        match outcomes.last() {
            Ok(_) => before,
            Err(error) => before.push(error@),
        }
    }
}

/// Every outcome is a record or a failure, never both and never neither.
pub proof fn lemma_outcomes_partition(outcomes: Seq<Result<FileRecord, FileError>>)
    ensures
        successes(outcomes).len() + failures(outcomes).len() == outcomes.len(),
    decreases outcomes.len(),
{
    if outcomes.len() > 0 {
        lemma_outcomes_partition(outcomes.drop_last());
    }
}

/// Where no file failed there are as many records as files, and nothing to
/// report.
pub proof fn lemma_no_failure(outcomes: Seq<Result<FileRecord, FileError>>)
    requires
        forall|j: int| 0 <= j < outcomes.len() ==> outcomes[j] is Ok,
    ensures
        successes(outcomes).len() == outcomes.len(),
        failures(outcomes).len() == 0,
    decreases outcomes.len(),
{
    if outcomes.len() > 0 {
        assert(outcomes.last() is Ok);
        lemma_no_failure(outcomes.drop_last());
    }
}

/// Where one file among many failed, all the others have their record and
/// that one file is the one failure reported.
pub proof fn lemma_one_failure(outcomes: Seq<Result<FileRecord, FileError>>, i: int)
    requires
        0 <= i < outcomes.len(),
        outcomes[i] is Err,
        forall|j: int| 0 <= j < outcomes.len() && j != i ==> outcomes[j] is Ok,
    ensures
        successes(outcomes).len() == outcomes.len() - 1,
        failures(outcomes) == seq![outcomes[i]->Err_0@],
    decreases outcomes.len(),
{
    let before = outcomes.drop_last();
    if i == outcomes.len() - 1 {
        lemma_no_failure(before);
        assert(failures(before) =~= Seq::<FileErrorView>::empty());
        assert(failures(outcomes) =~= seq![outcomes[i]->Err_0@]);
    } else {
        assert(outcomes.last() is Ok);
        lemma_one_failure(before, i);
    }
}

/// The outcomes of a run, parted.
#[derive(Debug, PartialEq, Eq)]
pub struct Gathered {
    /// The records of the files that were read.
    pub records: Vec<FileRecord>,
    /// The files that were left out, for the diagnostics.
    pub failures: Vec<FileError>,
}

/// Parts the outcomes of all files into records and failures, each kept in
/// the order in which the outcomes stand.
pub fn gather(outcomes: Vec<Result<FileRecord, FileError>>) -> (g: Gathered)
    ensures
        record_views(g.records@) == successes(outcomes@),
        error_views(g.failures@) == failures(outcomes@),
        g.records.len() + g.failures.len() == outcomes.len(),
{
    let ghost all = outcomes@;
    let mut pending = outcomes;
    let mut turned: Vec<Result<FileRecord, FileError>> = Vec::new();
    while pending.len() > 0
        invariant
            pending@.len() + turned@.len() == all.len(),
            pending@ == all.take(pending@.len() as int),
            forall|j: int| 0 <= j < turned@.len() ==> turned@[j] == all[all.len() - 1 - j],
        decreases pending.len(),
    {
        let outcome = pending.pop().unwrap();
        turned.push(outcome);
    }
    let mut records: Vec<FileRecord> = Vec::new();
    let mut errors: Vec<FileError> = Vec::new();
    proof {
        assert(all.take(0) =~= Seq::<Result<FileRecord, FileError>>::empty());
        assert(record_views(records@) =~= successes(all.take(0)));
        assert(error_views(errors@) =~= failures(all.take(0)));
    }
    while turned.len() > 0
        invariant
            turned@.len() <= all.len(),
            forall|j: int| 0 <= j < turned@.len() ==> turned@[j] == all[all.len() - 1 - j],
            record_views(records@) == successes(all.take(all.len() - turned@.len())),
            error_views(errors@) == failures(all.take(all.len() - turned@.len())),
        decreases turned.len(),
    {
        let ghost done = all.len() - turned@.len();
        let ghost prev_records = records@;
        let ghost prev_errors = errors@;
        let outcome = turned.pop().unwrap();
        proof {
            assert(outcome == all[done]);
            assert(all.take(done + 1).drop_last() =~= all.take(done));
            assert(all.take(done + 1).last() == outcome);
        }
        match outcome {
            Ok(record) => {
                proof {
                    assert(record_views(prev_records.push(record)) =~= record_views(
                        prev_records,
                    ).push(record@));
                }
                records.push(record);
            },
            Err(error) => {
                proof {
                    assert(error_views(prev_errors.push(error)) =~= error_views(prev_errors).push(
                        error@,
                    ));
                }
                errors.push(error);
            },
        }
    }
    proof {
        assert(all.take(all.len() as int) =~= all);
        lemma_outcomes_partition(all);
    }
    Gathered { records, failures: errors }
}

} // verus!
