//! The record of one file, and the total order that makes a manifest
//! canonical: by path, then by hash, then by modification time.

use crate::digest::{
    hash_lt, lemma_hash_asymmetric, lemma_hash_connected, lemma_hash_transitive, rank_hashes,
    ContentHash, ContentHashView,
};
use crate::lexical::{
    codes, lemma_codes_injective, lemma_lex_asymmetric, lemma_lex_connected,
    lemma_lex_transitive, lex_lt, rank_str, Rank,
};
use vstd::prelude::*;
use vstd::relations::total_ordering;

verus! {

/// A point in time: milliseconds since the Unix epoch, and the same instant
/// written out.
#[derive(Clone, Debug, PartialEq, Eq, PartialOrd, Ord)]
pub struct Timestamp {
    pub epoch: u128,
    pub iso8601: String,
}

/// A timestamp as the contracts see it.
pub struct TimestampView {
    pub epoch: u128,
    pub iso8601: Seq<char>,
}

impl View for Timestamp {
    type V = TimestampView;

    open spec fn view(&self) -> TimestampView {
        TimestampView { epoch: self.epoch, iso8601: self.iso8601@ }
    }
}

/// What the manifest says of one file.
#[derive(Clone, Debug, PartialEq, Eq, PartialOrd, Ord)]
pub struct FileRecord {
    pub file: String,
    pub hash: ContentHash,
    pub timestamp_mod: Timestamp,
}

/// A record as the contracts see it.
pub struct FileRecordView {
    pub file: Seq<char>,
    pub hash: ContentHashView,
    pub timestamp_mod: TimestampView,
}

impl View for FileRecord {
    type V = FileRecordView;

    open spec fn view(&self) -> FileRecordView {
        FileRecordView { file: self.file@, hash: self.hash@, timestamp_mod: self.timestamp_mod@ }
    }
}

/// What a list of records holds.
pub open spec fn record_views(v: Seq<FileRecord>) -> Seq<FileRecordView> {
    Seq::new(v.len(), |i: int| v[i]@)
}

/// The order of timestamps: by the number, then by the text.
pub open spec fn stamp_lt(a: TimestampView, b: TimestampView) -> bool {
    a.epoch < b.epoch || (a.epoch == b.epoch && lex_lt(codes(a.iso8601), codes(b.iso8601)))
}

/// The strict order of records: by path, then by hash, then by timestamp.
pub open spec fn record_lt(a: FileRecordView, b: FileRecordView) -> bool {
    ||| lex_lt(codes(a.file), codes(b.file))
    ||| (a.file == b.file && hash_lt(a.hash, b.hash))
    ||| (a.file == b.file && a.hash == b.hash && stamp_lt(a.timestamp_mod, b.timestamp_mod))
}

/// The order of records: equal, or strictly before.
pub open spec fn record_le(a: FileRecordView, b: FileRecordView) -> bool {
    a == b || record_lt(a, b)
}

/// The three-way comparison of records.
pub open spec fn record_rank(a: FileRecordView, b: FileRecordView) -> Rank {
    if record_lt(a, b) {
        Rank::Before
    } else if a == b {
        Rank::Same
    } else {
        Rank::After
    }
}

/// Of two records at most one comes before the other, and then they differ.
pub proof fn lemma_record_asymmetric(a: FileRecordView, b: FileRecordView)
    requires
        record_lt(a, b),
    ensures
        !record_lt(b, a),
        a != b,
{
    if lex_lt(codes(a.file), codes(b.file)) {
        lemma_lex_asymmetric(codes(a.file), codes(b.file));
    } else if hash_lt(a.hash, b.hash) {
        lemma_hash_asymmetric(a.hash, b.hash);
        if lex_lt(codes(b.file), codes(a.file)) {
            lemma_lex_asymmetric(codes(b.file), codes(a.file));
        }
    } else {
        if lex_lt(codes(b.file), codes(a.file)) {
            lemma_lex_asymmetric(codes(b.file), codes(a.file));
        }
        if hash_lt(b.hash, a.hash) {
            lemma_hash_asymmetric(b.hash, a.hash);
        }
        let s = a.timestamp_mod;
        let t = b.timestamp_mod;
        if s.epoch == t.epoch {
            lemma_lex_asymmetric(codes(s.iso8601), codes(t.iso8601));
        }
    }
}

/// The order of records is transitive.
pub proof fn lemma_record_transitive(a: FileRecordView, b: FileRecordView, c: FileRecordView)
    requires
        record_lt(a, b),
        record_lt(b, c),
    ensures
        record_lt(a, c),
{
    if lex_lt(codes(a.file), codes(b.file)) && lex_lt(codes(b.file), codes(c.file)) {
        lemma_lex_transitive(codes(a.file), codes(b.file), codes(c.file));
    } else if lex_lt(codes(a.file), codes(b.file)) || lex_lt(codes(b.file), codes(c.file)) {
    } else if hash_lt(a.hash, b.hash) && hash_lt(b.hash, c.hash) {
        lemma_hash_transitive(a.hash, b.hash, c.hash);
    } else if hash_lt(a.hash, b.hash) || hash_lt(b.hash, c.hash) {
    } else {
        let s = a.timestamp_mod;
        let t = b.timestamp_mod;
        let u = c.timestamp_mod;
        if s.epoch == t.epoch && t.epoch == u.epoch {
            lemma_lex_transitive(codes(s.iso8601), codes(t.iso8601), codes(u.iso8601));
        }
    }
}

/// Two records are equal, or one comes before the other.
pub proof fn lemma_record_connected(a: FileRecordView, b: FileRecordView)
    ensures
        a == b || record_lt(a, b) || record_lt(b, a),
{
    lemma_lex_connected(codes(a.file), codes(b.file));
    if codes(a.file) == codes(b.file) {
        lemma_codes_injective(a.file, b.file);
        lemma_hash_connected(a.hash, b.hash);
        if a.hash == b.hash {
            let s = a.timestamp_mod;
            let t = b.timestamp_mod;
            if s.epoch == t.epoch {
                lemma_lex_connected(codes(s.iso8601), codes(t.iso8601));
                if codes(s.iso8601) == codes(t.iso8601) {
                    lemma_codes_injective(s.iso8601, t.iso8601);
                }
            }
        }
    }
}

/// `record_le` is a total order: reflexive, antisymmetric, transitive, and
/// any two records are comparable.
pub proof fn lemma_record_order_total()
    ensures
        total_ordering(|a: FileRecordView, b: FileRecordView| record_le(a, b)),
{
    let le = |a: FileRecordView, b: FileRecordView| record_le(a, b);
    assert forall|a: FileRecordView, b: FileRecordView| #[trigger] le(a, b) && #[trigger] le(b, a)
        implies a == b by {
        if record_lt(a, b) {
            lemma_record_asymmetric(a, b);
        }
    }
    assert forall|a: FileRecordView, b: FileRecordView, c: FileRecordView| #[trigger]
        le(a, b) && #[trigger] le(b, c) implies le(a, c) by {
        if record_lt(a, b) && record_lt(b, c) {
            lemma_record_transitive(a, b, c);
        }
    }
    assert forall|a: FileRecordView, b: FileRecordView| #[trigger] le(a, b) || #[trigger] le(b, a) by {
        lemma_record_connected(a, b);
    }
    assert forall|a: FileRecordView| #[trigger] le(a, a) by {}
}

impl Timestamp {
    /// A timestamp of these two parts.
    pub fn new(epoch: u128, iso8601: String) -> (t: Timestamp)
        ensures
            t@ == (TimestampView { epoch, iso8601: iso8601@ }),
    {
        Timestamp { epoch, iso8601 }
    }
}

impl FileRecord {
    /// The record of a file that was read: its path, the hash of its content
    /// and the time it was last modified.
    pub fn new(file: String, hash: ContentHash, timestamp_mod: Timestamp) -> (r: FileRecord)
        ensures
            r@ == (FileRecordView { file: file@, hash: hash@, timestamp_mod: timestamp_mod@ }),
    {
        FileRecord { file, hash, timestamp_mod }
    }

    /// Where this record stands relative to another.
    pub fn rank(&self, other: &FileRecord) -> (r: Rank)
        ensures
            r == record_rank(self@, other@),
    {
        proof {
            if record_lt(self@, other@) {
                lemma_record_asymmetric(self@, other@);
            }
            if record_lt(other@, self@) {
                lemma_record_asymmetric(other@, self@);
            }
            lemma_record_connected(self@, other@);
        }
        match rank_str(self.file.as_str(), other.file.as_str()) {
            Rank::Before => Rank::Before,
            Rank::After => Rank::After,
            Rank::Same => match rank_hashes(&self.hash, &other.hash) {
                Rank::Before => Rank::Before,
                Rank::After => Rank::After,
                Rank::Same => {
                    if self.timestamp_mod.epoch < other.timestamp_mod.epoch {
                        Rank::Before
                    } else if self.timestamp_mod.epoch > other.timestamp_mod.epoch {
                        Rank::After
                    } else {
                        rank_str(
                            self.timestamp_mod.iso8601.as_str(),
                            other.timestamp_mod.iso8601.as_str(),
                        )
                    }
                },
            },
        }
    }
}

} // verus!
