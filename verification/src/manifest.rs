//! The manifest of one run: the records in canonical order, with the run's
//! own data around them.

use crate::lexical::Rank;
use crate::record::{
    lemma_record_connected, lemma_record_order_total,
    lemma_record_transitive, record_le, record_lt, record_views, FileRecord, FileRecordView,
    Timestamp, TimestampView,
};
use vstd::multiset::Multiset;
use vstd::prelude::*;
use vstd::relations::sorted_by;
use vstd::seq_lib::lemma_sorted_unique;

verus! {

broadcast use vstd::seq_lib::group_to_multiset_ensures;

/// Where a run looked: the root as resolved, the root as given, and the
/// directory the run was started from.
#[derive(Debug, PartialEq, Eq)]
pub struct PathInfo {
    pub base: String,
    pub cmdline: String,
    pub run_from: String,
}

/// The run's paths as the contracts see them.
pub struct PathInfoView {
    pub base: Seq<char>,
    pub cmdline: Seq<char>,
    pub run_from: Seq<char>,
}

impl View for PathInfo {
    type V = PathInfoView;

    open spec fn view(&self) -> PathInfoView {
        PathInfoView { base: self.base@, cmdline: self.cmdline@, run_from: self.run_from@ }
    }
}

/// The snapshot of a tree: when it was made, where, and the records of its
/// files in canonical order.
#[derive(Debug, PartialEq, Eq)]
pub struct Manifest {
    pub updated_on: Timestamp,
    pub path: PathInfo,
    pub files: Vec<FileRecord>,
    pub count: usize,
}

/// A manifest as the contracts see it.
pub struct ManifestView {
    pub updated_on: TimestampView,
    pub path: PathInfoView,
    pub files: Seq<FileRecordView>,
    pub count: nat,
}

impl View for Manifest {
    type V = ManifestView;

    open spec fn view(&self) -> ManifestView {
        ManifestView {
            updated_on: self.updated_on@,
            path: self.path@,
            files: record_views(self.files@),
            count: self.count as nat,
        }
    }
}

impl Manifest {
    /// The manifest is canonical: its records are in order, and it counts
    /// as many as it holds.
    pub open spec fn wf(&self) -> bool {
        &&& in_order(self@.files)
        &&& self@.count == self@.files.len()
    }
}

/// Each record stands before, or equals, every record after it.
pub open spec fn in_order(files: Seq<FileRecordView>) -> bool {
    forall|i: int, j: int| 0 <= i < j < files.len() ==> record_le(#[trigger] files[i], #[trigger] files[j])
}

/// `sorted` holds the records of `records`, each as often as it is there,
/// in canonical order.
pub open spec fn is_sorting_of(sorted: Seq<FileRecordView>, records: Seq<FileRecordView>) -> bool {
    &&& in_order(sorted)
    &&& sorted.to_multiset() == records.to_multiset()
}

/// `m` is the manifest of these records, paths and time of making.
pub open spec fn is_manifest_of(
    m: ManifestView,
    records: Seq<FileRecordView>,
    path: PathInfoView,
    updated_on: TimestampView,
) -> bool {
    &&& is_sorting_of(m.files, records)
    &&& m.count == records.len()
    &&& m.path == path
    &&& m.updated_on == updated_on
}

/// The canonical order of a collection of records is unique: two ordered
/// sequences with the same records are the same sequence.
pub proof fn lemma_canonical_unique(a: Seq<FileRecordView>, b: Seq<FileRecordView>)
    requires
        in_order(a),
        in_order(b),
        a.to_multiset() == b.to_multiset(),
    ensures
        a == b,
{
    let le = |x: FileRecordView, y: FileRecordView| record_le(x, y);
    lemma_record_order_total();
    assert(sorted_by(a, le));
    assert(sorted_by(b, le));
    lemma_sorted_unique(a, b, le);
}

/// The order in which the records arrive does not show in the result: two
/// collections with the same records sort to the same sequence.
pub proof fn lemma_arrival_order_irrelevant(
    first: Seq<FileRecordView>,
    second: Seq<FileRecordView>,
    sorted_first: Seq<FileRecordView>,
    sorted_second: Seq<FileRecordView>,
)
    requires
        first.to_multiset() == second.to_multiset(),
        is_sorting_of(sorted_first, first),
        is_sorting_of(sorted_second, second),
    ensures
        sorted_first == sorted_second,
{
    lemma_canonical_unique(sorted_first, sorted_second);
}

/// Two manifests made of the same records and the same paths differ at most
/// in the time they were made.
pub proof fn lemma_manifest_repeatable(
    m1: ManifestView,
    m2: ManifestView,
    records1: Seq<FileRecordView>,
    records2: Seq<FileRecordView>,
    path: PathInfoView,
    made1: TimestampView,
    made2: TimestampView,
)
    requires
        records1.to_multiset() == records2.to_multiset(),
        is_manifest_of(m1, records1, path, made1),
        is_manifest_of(m2, records2, path, made2),
    ensures
        m1.files == m2.files,
        m1.count == m2.count,
        m1.path == m2.path,
        m1 == (ManifestView { updated_on: made1, ..m2 }),
{
    lemma_canonical_unique(m1.files, m2.files);
    assert(records1.len() == records1.to_multiset().len());
    assert(records2.len() == records2.to_multiset().len());
}

/// A manifest holds each record that it was made of exactly as often as that
/// record was handed in, and nothing else.
pub proof fn lemma_manifest_holds_each_once(
    m: ManifestView,
    records: Seq<FileRecordView>,
    path: PathInfoView,
    made: TimestampView,
    r: FileRecordView,
)
    requires
        is_manifest_of(m, records, path, made),
    ensures
        m.files.to_multiset().count(r) == records.to_multiset().count(r),
        m.files.contains(r) <==> records.contains(r),
        m.files.len() == records.len(),
{
    assert(m.files.len() == m.files.to_multiset().len());
    assert(records.len() == records.to_multiset().len());
    vstd::seq_lib::to_multiset_contains(m.files, r);
    vstd::seq_lib::to_multiset_contains(records, r);
}

/// The place of `record` among `sorted`: the first index whose record does
/// not stand before it.
fn place_of(sorted: &Vec<FileRecord>, record: &FileRecord) -> (at: usize)
    requires
        in_order(record_views(sorted@)),
    ensures
        at <= sorted.len(),
        forall|i: int| 0 <= i < at ==> record_lt(#[trigger] record_views(sorted@)[i], record@),
        forall|i: int| at <= i < sorted.len() ==> record_le(record@, #[trigger] record_views(sorted@)[i]),
{
    let mut at: usize = 0;
    while at < sorted.len()
        invariant
            at <= sorted.len(),
            in_order(record_views(sorted@)),
            forall|i: int| 0 <= i < at ==> record_lt(#[trigger] record_views(sorted@)[i], record@),
        decreases sorted.len() - at,
    {
        match sorted[at].rank(record) {
            Rank::Before => {},
            _ => {
                proof {
                    let here = record_views(sorted@)[at as int];
                    lemma_record_connected(here, record@);
                    assert forall|i: int| at <= i < sorted.len() implies record_le(
                        record@,
                        #[trigger] record_views(sorted@)[i],
                    ) by {
                        let there = record_views(sorted@)[i];
                        if i > at && record_lt(record@, here) && record_lt(here, there) {
                            lemma_record_transitive(record@, here, there);
                        }
                    }
                }
                return at;
            },
        }
        at += 1;
    }
    at
}

/// Puts records into canonical order.
pub fn sort_records(records: Vec<FileRecord>) -> (sorted: Vec<FileRecord>)
    ensures
        is_sorting_of(record_views(sorted@), record_views(records@)),
        sorted.len() == records.len(),
{
    let mut rest = records;
    let mut sorted: Vec<FileRecord> = Vec::new();
    let ghost all = record_views(records@);
    proof {
        assert(record_views(sorted@).to_multiset().add(record_views(rest@).to_multiset())
            =~= all.to_multiset());
    }
    while rest.len() > 0
        invariant
            in_order(record_views(sorted@)),
            record_views(sorted@).to_multiset().add(record_views(rest@).to_multiset())
                == all.to_multiset(),
            sorted.len() + rest.len() == all.len(),
            all.len() == records.len(),
        decreases rest.len(),
    {
        let ghost before_rest = record_views(rest@);
        let ghost before_sorted = record_views(sorted@);
        let record = rest.pop().unwrap();
        let at = place_of(&sorted, &record);
        proof {
            assert(before_rest =~= record_views(rest@).push(record@));
            assert(before_sorted.insert(at as int, record@) =~= record_views(
                sorted@.insert(at as int, record),
            ));
            let after = before_sorted.insert(at as int, record@);
            assert forall|i: int, j: int| 0 <= i < j < after.len() implies record_le(
                #[trigger] after[i],
                #[trigger] after[j],
            ) by {
                if j < at {
                    assert(after[i] == before_sorted[i] && after[j] == before_sorted[j]);
                } else if j == at {
                    assert(after[i] == before_sorted[i]);
                } else if i < at {
                    assert(after[i] == before_sorted[i] && after[j] == before_sorted[j - 1]);
                    if record_lt(before_sorted[i], record@) && record_lt(
                        record@,
                        before_sorted[j - 1],
                    ) {
                        lemma_record_transitive(before_sorted[i], record@, before_sorted[j - 1]);
                    }
                } else if i == at {
                    assert(after[j] == before_sorted[j - 1]);
                } else {
                    assert(after[i] == before_sorted[i - 1] && after[j] == before_sorted[j - 1]);
                }
            }
            assert(after.to_multiset().add(record_views(rest@).to_multiset())
                =~= all.to_multiset());
        }
        sorted.insert(at, record);
    }
    proof {
        assert(record_views(rest@).to_multiset() =~= Multiset::<FileRecordView>::empty());
        assert(record_views(sorted@).to_multiset() =~= all.to_multiset());
    }
    sorted
}

/// Makes the manifest of one run: the records in canonical order, their
/// number, and the run's paths and time.
pub fn assemble(records: Vec<FileRecord>, path: PathInfo, updated_on: Timestamp) -> (m: Manifest)
    ensures
        is_manifest_of(m@, record_views(records@), path@, updated_on@),
        m.wf(),
{
    let files = sort_records(records);
    let count = files.len();
    Manifest { updated_on, path, files, count }
}

} // verus!
