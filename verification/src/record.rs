//! The record store's data model: records, history entries, and the
//! results handed back by folder loads and queries.

use vstd::prelude::*;

verus! {

/// One ingested entity, keyed by the trimmed first column of its source row.
#[derive(Debug)]
pub struct DataRecord {
    /// Trimmed first column; unique key in the record store.
    pub id: String,
    /// Trimmed second column; the payload returned on a successful query.
    pub link: String,
    /// Every column of the source row, trimmed; each non-empty value is a
    /// secondary lookup key.
    pub all_columns: Vec<String>,
    /// Number of successful lookups that resolved to this record.
    pub query_count: u32,
    /// Set to true at most once, by verification.
    pub is_verified: bool,
    /// Present exactly when `is_verified` is true.
    pub verify_time: Option<String>,
}

/// Mathematical view of a `DataRecord`.
pub struct RecModel {
    pub id: Seq<char>,
    pub link: Seq<char>,
    pub columns: Seq<Seq<char>>,
    pub query_count: u32,
    pub verified: bool,
    pub verified_at: Option<Seq<char>>,
}

impl View for DataRecord {
    type V = RecModel;

    open spec fn view(&self) -> RecModel {
        RecModel {
            id: self.id@,
            link: self.link@,
            columns: self.all_columns.deep_view(),
            query_count: self.query_count,
            verified: self.is_verified,
            verified_at: match self.verify_time {
                Option::Some(t) => Option::Some(t@),
                Option::None => Option::None,
            },
        }
    }
}

impl RecModel {
    /// Internal consistency of one record: a non-empty key, the key and
    /// payload standing in their source columns, and the verification
    /// timestamp present exactly when the record is verified.
    pub open spec fn wf(self) -> bool {
        &&& self.id.len() > 0
        &&& self.columns.len() >= 2
        &&& self.columns[0] == self.id
        &&& self.columns[1] == self.link
        &&& self.verified <==> self.verified_at is Some
    }
}

/// One logged query attempt, successful or not.
#[derive(Debug)]
pub struct HistoryRecord {
    /// Session-unique entry identifier, drawn from a monotonic counter.
    pub id: u64,
    /// Wall-clock time of the query.
    pub query_time: String,
    /// The exact string the caller searched for.
    pub query_key: String,
    /// The matched record's link, or absent when nothing matched.
    pub query_result: Option<String>,
    /// Snapshot of the matched record's verified state at query time.
    pub is_verified: bool,
}

/// Mathematical view of a `HistoryRecord`.
pub struct HistModel {
    pub id: u64,
    pub time: Seq<char>,
    pub key: Seq<char>,
    pub result: Option<Seq<char>>,
    pub verified: bool,
}

impl View for HistoryRecord {
    type V = HistModel;

    open spec fn view(&self) -> HistModel {
        HistModel {
            id: self.id,
            time: self.query_time@,
            key: self.query_key@,
            result: match self.query_result {
                Option::Some(r) => Option::Some(r@),
                Option::None => Option::None,
            },
            verified: self.is_verified,
        }
    }
}

/// What a folder load reports back on success.
#[derive(Debug)]
pub struct LoadResult {
    pub file_count: u32,
    pub record_count: u32,
    pub skipped_files: Vec<String>,
}

/// What a query hands back to the caller.
#[derive(Debug)]
pub struct QueryResult {
    pub found: bool,
    pub record: Option<DataRecord>,
    pub is_duplicate: bool,
    pub matched_column: Option<usize>,
}

/// View of a sequence of records.
pub open spec fn recs_model(rs: Seq<DataRecord>) -> Seq<RecModel> {
    rs.map_values(|r: DataRecord| r@)
}

/// View of a sequence of history entries.
pub open spec fn hists_model(hs: Seq<HistoryRecord>) -> Seq<HistModel> {
    hs.map_values(|h: HistoryRecord| h@)
}

} // verus!
