//! The shared state container: record store, value index, duplicate
//! set and query history, with the query/verify state machine and the
//! ingestion steps that rebuild the store from parsed rows.

use vstd::prelude::*;

use crate::text::{trim_of, trim_string};
use crate::record::{
    DataRecord, HistModel, HistoryRecord, LoadResult, QueryResult, RecModel, hists_model,
    recs_model,
};

verus! {

use vstd::string::StringExecFns;

/// One entry of the value index: a column value and the id of the
/// record that owns it.
pub struct IndexEntry {
    pub value: String,
    pub id: String,
}

/// Mathematical view of an `IndexEntry`.
pub struct IndexModel {
    pub value: Seq<char>,
    pub id: Seq<char>,
}

impl View for IndexEntry {
    type V = IndexModel;

    open spec fn view(&self) -> IndexModel {
        IndexModel { value: self.value@, id: self.id@ }
    }
}

/// View of a sequence of index entries.
pub open spec fn idx_model(es: Seq<IndexEntry>) -> Seq<IndexModel> {
    es.map_values(|e: IndexEntry| e@)
}

/// The in-memory tables: records keyed by id, the value index over all
/// columns, the ids seen more than once in the latest load, and the
/// bounded query history.
pub struct Store {
    records: Vec<DataRecord>,
    index: Vec<IndexEntry>,
    duplicates: Vec<String>,
    history: Vec<HistoryRecord>,
    next_history_id: u64,
}

/// Mathematical view of a `Store`.
pub struct StoreModel {
    pub records: Seq<RecModel>,
    pub index: Seq<IndexModel>,
    pub duplicates: Seq<Seq<char>>,
    pub history: Seq<HistModel>,
    pub next_history_id: u64,
}

impl View for Store {
    type V = StoreModel;

    closed spec fn view(&self) -> StoreModel {
        StoreModel {
            records: recs_model(self.records@),
            index: idx_model(self.index@),
            duplicates: self.duplicates.deep_view(),
            history: hists_model(self.history@),
            next_history_id: self.next_history_id,
        }
    }
}

/// The history log never holds more than this many entries.
pub const HISTORY_CAP: usize = 100;

/// There is a record with the given id.
pub open spec fn has_rec(rs: Seq<RecModel>, id: Seq<char>) -> bool {
    exists|i: int| 0 <= i < rs.len() && rs[i].id == id
}

/// The position of the record with the given id (unique under `wf`).
pub open spec fn rec_idx(rs: Seq<RecModel>, id: Seq<char>) -> int {
    choose|i: int| 0 <= i < rs.len() && rs[i].id == id
}

/// The index has an entry for the given value.
pub open spec fn idx_has(ix: Seq<IndexModel>, v: Seq<char>) -> bool {
    exists|i: int| 0 <= i < ix.len() && ix[i].value == v
}

/// The position of the entry for the given value (unique under `wf`).
pub open spec fn idx_pos(ix: Seq<IndexModel>, v: Seq<char>) -> int {
    choose|i: int| 0 <= i < ix.len() && ix[i].value == v
}

/// The id the index maps the given value to.
pub open spec fn idx_lookup(ix: Seq<IndexModel>, v: Seq<char>) -> Seq<char> {
    ix[idx_pos(ix, v)].id
}

/// An index entry names an existing record, one of whose columns is the
/// entry's value.
pub open spec fn entry_ok(rs: Seq<RecModel>, e: IndexModel) -> bool {
    exists|j: int|
        0 <= j < rs.len() && (#[trigger] rs[j]).id == e.id && rs[j].columns.contains(e.value)
}

impl StoreModel {
    /// Record table consistency: unique ids, each record internally
    /// well formed.
    pub open spec fn records_ok(self) -> bool {
        &&& forall|i: int, j: int|
            0 <= i < j < self.records.len() ==> self.records[i].id != self.records[j].id
        &&& forall|i: int| 0 <= i < self.records.len() ==> (#[trigger] self.records[i]).wf()
    }

    /// Value index consistency: unique non-empty values, each entry
    /// backed by a record that carries the value in its columns.
    pub open spec fn index_ok(self) -> bool {
        &&& forall|i: int, j: int|
            0 <= i < j < self.index.len() ==> self.index[i].value != self.index[j].value
        &&& forall|i: int| 0 <= i < self.index.len() ==> (#[trigger] self.index[i]).value.len() > 0
        &&& forall|i: int| 0 <= i < self.index.len() ==> entry_ok(self.records, #[trigger] self.index[i])
    }

    /// Duplicate set consistency: no repeats.
    pub open spec fn dups_ok(self) -> bool {
        forall|i: int, j: int|
            0 <= i < j < self.duplicates.len() ==> self.duplicates[i] != self.duplicates[j]
    }

    /// History consistency: capped length, unique entry ids, all below
    /// the id counter.
    pub open spec fn history_ok(self) -> bool {
        &&& self.history.len() <= HISTORY_CAP
        &&& forall|i: int|
            0 <= i < self.history.len() ==> (#[trigger] self.history[i]).id < self.next_history_id
        &&& forall|i: int, j: int|
            0 <= i < j < self.history.len() ==> self.history[i].id != self.history[j].id
    }

    /// Mutual consistency of all four tables.
    pub open spec fn wf(self) -> bool {
        self.records_ok() && self.index_ok() && self.dups_ok() && self.history_ok()
    }
}

/// A found position together with record-id uniqueness pins down
/// `rec_idx`.
pub proof fn lemma_rec_idx_is(rs: Seq<RecModel>, id: Seq<char>, k: int)
    requires
        forall|i: int, j: int| 0 <= i < j < rs.len() ==> rs[i].id != rs[j].id,
        0 <= k < rs.len(),
        rs[k].id == id,
    ensures
        has_rec(rs, id),
        rec_idx(rs, id) == k,
{
    assert(has_rec(rs, id));
    let j = rec_idx(rs, id);
    assert(0 <= j < rs.len() && rs[j].id == id);
    if j != k {
        if j < k {
            assert(rs[j].id != rs[k].id);
        } else {
            assert(rs[k].id != rs[j].id);
        }
        assert(false);
    }
}

/// A found position together with index-value uniqueness pins down
/// `idx_pos`.
pub proof fn lemma_idx_pos_is(ix: Seq<IndexModel>, v: Seq<char>, k: int)
    requires
        forall|i: int, j: int| 0 <= i < j < ix.len() ==> ix[i].value != ix[j].value,
        0 <= k < ix.len(),
        ix[k].value == v,
    ensures
        idx_has(ix, v),
        idx_pos(ix, v) == k,
{
    assert(idx_has(ix, v));
    let j = idx_pos(ix, v);
    assert(0 <= j < ix.len() && ix[j].value == v);
    if j != k {
        if j < k {
            assert(ix[j].value != ix[k].value);
        } else {
            assert(ix[k].value != ix[j].value);
        }
        assert(false);
    }
}

/// Equality of two strings, by their characters.
fn string_eq(a: &String, b: &String) -> (r: bool)
    ensures
        r == (a@ == b@),
{
    let x: &str = a.as_str();
    let y: &str = b.as_str();
    let xo = x.to_owned();
    let yo = y.to_owned();
    xo == yo
}

/// Consistency of the record, index and duplicate tables carries over
/// to any model with the same tables.
pub proof fn lemma_tables_transfer(m0: StoreModel, m1: StoreModel)
    requires
        m0.records_ok(),
        m0.index_ok(),
        m0.dups_ok(),
        m1.records == m0.records,
        m1.index == m0.index,
        m1.duplicates == m0.duplicates,
    ensures
        m1.records_ok(),
        m1.index_ok(),
        m1.dups_ok(),
{
    assert forall|i: int, j: int|
        0 <= i < j < m1.records.len() implies m1.records[i].id != m1.records[j].id by {
        assert(m1.records[i] == m0.records[i]);
        assert(m1.records[j] == m0.records[j]);
    }
    assert forall|i: int| 0 <= i < m1.records.len() implies (#[trigger] m1.records[i]).wf() by {
        assert(m1.records[i] == m0.records[i]);
    }
    assert forall|i: int, j: int|
        0 <= i < j < m1.index.len() implies m1.index[i].value != m1.index[j].value by {
        assert(m1.index[i] == m0.index[i]);
        assert(m1.index[j] == m0.index[j]);
    }
    assert forall|i: int| 0 <= i < m1.index.len() implies (#[trigger] m1.index[i]).value.len()
        > 0 by {
        assert(m1.index[i] == m0.index[i]);
    }
    assert forall|i: int| 0 <= i < m1.index.len() implies entry_ok(
        m1.records,
        #[trigger] m1.index[i],
    ) by {
        assert(m1.index[i] == m0.index[i]);
        assert(entry_ok(m0.records, m0.index[i]));
    }
    assert forall|i: int, j: int|
        0 <= i < j < m1.duplicates.len() implies m1.duplicates[i] != m1.duplicates[j] by {
        assert(m1.duplicates[i] == m0.duplicates[i]);
        assert(m1.duplicates[j] == m0.duplicates[j]);
    }
}

/// Finds the position of the record with the given id, scanning from
/// the front.
fn find_by_id(rs: &Vec<DataRecord>, id: &String) -> (r: Option<usize>)
    ensures
        match r {
            Option::Some(k) => 0 <= k < rs@.len() && recs_model(rs@)[k as int].id == id@
                && forall|i: int| 0 <= i < k ==> recs_model(rs@)[i].id != id@,
            Option::None => forall|i: int| 0 <= i < rs@.len() ==> recs_model(rs@)[i].id != id@,
        },
{
    let mut i: usize = 0;
    while i < rs.len()
        invariant
            0 <= i <= rs@.len(),
            forall|k: int| 0 <= k < i ==> recs_model(rs@)[k].id != id@,
        decreases rs@.len() - i,
    {
        if string_eq(&rs[i].id, id) {
            proof {
                assert(recs_model(rs@)[i as int].id == id@);
            }
            return Option::Some(i);
        }
        i += 1;
    }
    Option::None
}

/// Finds the position of the index entry for the given value.
fn find_index_entry(ix: &Vec<IndexEntry>, value: &String) -> (r: Option<usize>)
    ensures
        match r {
            Option::Some(k) => 0 <= k < ix@.len() && idx_model(ix@)[k as int].value == value@,
            Option::None => !idx_has(idx_model(ix@), value@),
        },
{
    let mut i: usize = 0;
    while i < ix.len()
        invariant
            0 <= i <= ix@.len(),
            forall|k: int| 0 <= k < i ==> idx_model(ix@)[k].value != value@,
        decreases ix@.len() - i,
    {
        if string_eq(&ix[i].value, value) {
            proof {
                assert(idx_model(ix@)[i as int].value == value@);
            }
            return Option::Some(i);
        }
        i += 1;
    }
    Option::None
}

/// Membership of a string in a vector of strings.
fn contains_string(v: &Vec<String>, s: &String) -> (r: bool)
    ensures
        r == v.deep_view().contains(s@),
{
    let mut i: usize = 0;
    while i < v.len()
        invariant
            0 <= i <= v@.len(),
            forall|k: int| 0 <= k < i ==> v.deep_view()[k] != s@,
        decreases v@.len() - i,
    {
        if string_eq(&v[i], s) {
            proof {
                assert(v.deep_view()[i as int] == s@);
            }
            return true;
        }
        i += 1;
    }
    proof {
        assert forall|k: int| 0 <= k < v.deep_view().len() implies v.deep_view()[k] != s@ by {}
    }
    false
}

/// Copies a vector of strings.
fn clone_string_vec(v: &Vec<String>) -> (r: Vec<String>)
    ensures
        r.deep_view() == v.deep_view(),
        r@.len() == v@.len(),
{
    let mut r: Vec<String> = Vec::new();
    let mut i: usize = 0;
    while i < v.len()
        invariant
            0 <= i <= v@.len(),
            r@.len() == i,
            forall|k: int| 0 <= k < i ==> r.deep_view()[k] == v.deep_view()[k],
        decreases v@.len() - i,
    {
        let s = v[i].clone();
        let ghost s_view = s@;
        r.push(s);
        proof {
            assert(r@[i as int]@ == s_view);
            assert forall|k: int| 0 <= k < i implies r.deep_view()[k] == v.deep_view()[k] by {
                assert(r@[k] == r@.subrange(0, r@.len() - 1)[k]);
            }
        }
        i += 1;
    }
    proof {
        assert(r.deep_view() =~~= v.deep_view());
    }
    r
}

/// Copies an optional string.
fn clone_opt_string(v: &Option<String>) -> (r: Option<String>)
    ensures
        (r is Some) == (v is Some),
        r matches Option::Some(s) ==> v matches Option::Some(t) && s@ == t@,
{
    match v {
        Option::Some(s) => Option::Some(s.clone()),
        Option::None => Option::None,
    }
}

/// Copies a record.
fn clone_record(r: &DataRecord) -> (c: DataRecord)
    ensures
        c@ == r@,
{
    let c = DataRecord {
        id: r.id.clone(),
        link: r.link.clone(),
        all_columns: clone_string_vec(&r.all_columns),
        query_count: r.query_count,
        is_verified: r.is_verified,
        verify_time: clone_opt_string(&r.verify_time),
    };
    proof {
        assert(c@.verified_at == r@.verified_at);
    }
    c
}

impl Store {
    /// A store with no records, no index entries, no duplicates and an
    /// empty history.
    pub fn new() -> (r: Store)
        ensures
            r@.records.len() == 0,
            r@.index.len() == 0,
            r@.duplicates.len() == 0,
            r@.history.len() == 0,
            r@.next_history_id == 0,
            r@.wf(),
    {
        let r = Store {
            records: Vec::new(),
            index: Vec::new(),
            duplicates: Vec::new(),
            history: Vec::new(),
            next_history_id: 0,
        };
        r
    }

    /// The records, for reading and for persistence snapshots.
    pub fn records(&self) -> (r: &Vec<DataRecord>)
        ensures
            recs_model(r@) == self@.records,
    {
        &self.records
    }

    /// Whether the history id counter still has headroom; callers must
    /// check this before a query can log a history entry.
    pub fn can_log_history(&self) -> (r: bool)
        ensures
            r == (self@.next_history_id < u64::MAX),
    {
        self.next_history_id < u64::MAX
    }

    /// The full history log, most recent first.
    pub fn get_history(&self) -> (r: &Vec<HistoryRecord>)
        ensures
            hists_model(r@) == self@.history,
    {
        &self.history
    }

    /// Empties the history log; everything else is untouched.
    pub fn clear_history(&mut self)
        requires
            old(self)@.wf(),
        ensures
            final(self)@.wf(),
            final(self)@.history.len() == 0,
            final(self)@.records == old(self)@.records,
            final(self)@.index == old(self)@.index,
            final(self)@.duplicates == old(self)@.duplicates,
            final(self)@.next_history_id == old(self)@.next_history_id,
    {
        self.history.clear();
        proof {
            assert(hists_model(self.history@) =~= Seq::<HistModel>::empty());
            lemma_tables_transfer(old(self)@, self@);
            assert(self@.history_ok());
            assert(self@.wf());
        }
    }

    /// Replaces the history log with one restored at startup, together
    /// with the next free entry id.
    pub fn restore_history(&mut self, h: Vec<HistoryRecord>, next_id: u64)
        requires
            old(self)@.wf(),
            hists_model(h@).len() <= HISTORY_CAP,
            forall|i: int| 0 <= i < h@.len() ==> (#[trigger] hists_model(h@)[i]).id < next_id,
            forall|i: int, j: int|
                0 <= i < j < h@.len() ==> hists_model(h@)[i].id != hists_model(h@)[j].id,
        ensures
            final(self)@.wf(),
            final(self)@.history == hists_model(h@),
            final(self)@.next_history_id == next_id,
            final(self)@.records == old(self)@.records,
            final(self)@.index == old(self)@.index,
            final(self)@.duplicates == old(self)@.duplicates,
    {
        self.history = h;
        self.next_history_id = next_id;
        proof {
            lemma_tables_transfer(old(self)@, self@);
            let m = self@;
            assert(m.history == hists_model(h@));
            assert(m.history.len() == h@.len());
            assert forall|i: int| 0 <= i < m.history.len() implies (#[trigger] m.history[i]).id
                < m.next_history_id by {
                assert(m.history[i] == hists_model(h@)[i]);
            }
            assert forall|i: int, j: int|
                0 <= i < j < m.history.len() implies m.history[i].id != m.history[j].id by {
                assert(m.history[i] == hists_model(h@)[i]);
                assert(m.history[j] == hists_model(h@)[j]);
            }
            assert(m.wf());
        }
    }
}


/// A query count bumped by one, saturating at the counter's maximum.
pub open spec fn inc_count(c: u32) -> u32 {
    if c < u32::MAX {
        (c + 1) as u32
    } else {
        c
    }
}

/// A history log cut back to the capacity, dropping the oldest entries.
pub open spec fn cap_history(h: Seq<HistModel>) -> Seq<HistModel> {
    if h.len() <= HISTORY_CAP {
        h
    } else {
        h.take(HISTORY_CAP as int)
    }
}

/// What a verification attempt runs into.
pub enum VerifyOutcome {
    NotFound,
    AlreadyVerified,
    Verified,
}

/// How `verify` decides: missing id, already verified, or a fresh
/// verification.
pub open spec fn spec_verify_outcome(m: StoreModel, id: Seq<char>) -> VerifyOutcome {
    if !has_rec(m.records, id) {
        VerifyOutcome::NotFound
    } else if m.records[rec_idx(m.records, id)].verified {
        VerifyOutcome::AlreadyVerified
    } else {
        VerifyOutcome::Verified
    }
}

/// The store after a verification attempt: on a fresh verification the
/// record is marked verified with the given timestamp; otherwise
/// nothing changes.
pub open spec fn spec_verify_store(m: StoreModel, id: Seq<char>, now: Seq<char>) -> StoreModel {
    if spec_verify_outcome(m, id) is Verified {
        let k = rec_idx(m.records, id);
        StoreModel {
            records: m.records.update(
                k,
                RecModel {
                    verified: true,
                    verified_at: Option::Some(now),
                    ..m.records[k]
                },
            ),
            ..m
        }
    } else {
        m
    }
}

/// A query key resolves to a record: the index knows the value and the
/// record it names exists.
pub open spec fn query_hit(m: StoreModel, key: Seq<char>) -> bool {
    idx_has(m.index, key) && has_rec(m.records, idx_lookup(m.index, key))
}

/// The leftmost column holding the key, if any.
pub open spec fn spec_first_col(cols: Seq<Seq<char>>, key: Seq<char>) -> Option<int>
    decreases cols.len(),
{
    if cols.len() == 0 {
        Option::None
    } else if cols[0] == key {
        Option::Some(0int)
    } else {
        match spec_first_col(cols.drop_first(), key) {
            Option::Some(j) => Option::Some(j + 1),
            Option::None => Option::None,
        }
    }
}

proof fn lemma_first_col_some(cols: Seq<Seq<char>>, key: Seq<char>, i: int)
    requires
        0 <= i < cols.len(),
        cols[i] == key,
        forall|k: int| 0 <= k < i ==> cols[k] != key,
    ensures
        spec_first_col(cols, key) == Option::Some(i),
    decreases i,
{
    if i == 0 {
    } else {
        assert(cols[0] != key);
        let t = cols.drop_first();
        assert(t[i - 1] == cols[i]);
        assert forall|k: int| 0 <= k < i - 1 implies t[k] != key by {
            assert(t[k] == cols[k + 1]);
        }
        lemma_first_col_some(t, key, i - 1);
    }
}

proof fn lemma_first_col_none(cols: Seq<Seq<char>>, key: Seq<char>)
    requires
        forall|k: int| 0 <= k < cols.len() ==> cols[k] != key,
    ensures
        spec_first_col(cols, key) is None,
    decreases cols.len(),
{
    if cols.len() > 0 {
        let t = cols.drop_first();
        assert forall|k: int| 0 <= k < t.len() implies t[k] != key by {
            assert(t[k] == cols[k + 1]);
        }
        lemma_first_col_none(t, key);
    }
}

/// The store after a query: on a hit the record's count is bumped and a
/// hit entry is prepended; on a miss only a miss entry is prepended.
/// Either way the history is capped and the entry counter advances.
pub open spec fn spec_query_store(m: StoreModel, key: Seq<char>, now: Seq<char>) -> StoreModel {
    if query_hit(m, key) {
        let k = rec_idx(m.records, idx_lookup(m.index, key));
        let rec = m.records[k];
        let e = HistModel {
            id: m.next_history_id,
            time: now,
            key: key,
            result: Option::Some(rec.link),
            verified: rec.verified,
        };
        StoreModel {
            records: m.records.update(k, RecModel { query_count: inc_count(rec.query_count), ..rec }),
            history: cap_history(seq![e] + m.history),
            next_history_id: (m.next_history_id + 1) as u64,
            ..m
        }
    } else {
        let e = HistModel {
            id: m.next_history_id,
            time: now,
            key: key,
            result: Option::None,
            verified: false,
        };
        StoreModel {
            history: cap_history(seq![e] + m.history),
            next_history_id: (m.next_history_id + 1) as u64,
            ..m
        }
    }
}

/// Updating only the usage fields of one record disturbs no table
/// consistency.
pub proof fn lemma_update_usage_preserves(m0: StoreModel, m1: StoreModel, k: int)
    requires
        m0.records_ok(),
        m0.index_ok(),
        m0.dups_ok(),
        0 <= k < m0.records.len(),
        m1.records.len() == m0.records.len(),
        forall|i: int| 0 <= i < m0.records.len() && i != k ==> m1.records[i] == m0.records[i],
        m1.records[k].id == m0.records[k].id,
        m1.records[k].columns == m0.records[k].columns,
        m1.records[k].wf(),
        m1.index == m0.index,
        m1.duplicates == m0.duplicates,
    ensures
        m1.records_ok(),
        m1.index_ok(),
        m1.dups_ok(),
{
    assert forall|i: int, j: int|
        0 <= i < j < m1.records.len() implies m1.records[i].id != m1.records[j].id by {
        assert(m1.records[i].id == m0.records[i].id);
        assert(m1.records[j].id == m0.records[j].id);
    }
    assert forall|i: int| 0 <= i < m1.records.len() implies (#[trigger] m1.records[i]).wf() by {
        if i != k {
            assert(m1.records[i] == m0.records[i]);
        }
    }
    assert forall|i: int, j: int|
        0 <= i < j < m1.index.len() implies m1.index[i].value != m1.index[j].value by {
        assert(m1.index[i] == m0.index[i]);
        assert(m1.index[j] == m0.index[j]);
    }
    assert forall|i: int| 0 <= i < m1.index.len() implies (#[trigger] m1.index[i]).value.len()
        > 0 by {
        assert(m1.index[i] == m0.index[i]);
    }
    assert forall|i: int| 0 <= i < m1.index.len() implies entry_ok(
        m1.records,
        #[trigger] m1.index[i],
    ) by {
        assert(m1.index[i] == m0.index[i]);
        assert(entry_ok(m0.records, m0.index[i]));
        let j = choose|j: int|
            0 <= j < m0.records.len() && (#[trigger] m0.records[j]).id == m0.index[i].id
                && m0.records[j].columns.contains(m0.index[i].value);
        if j == k {
            assert(m1.records[k].id == m0.records[j].id);
            assert(m1.records[k].columns.contains(m1.index[i].value));
            assert(0 <= k < m1.records.len() && m1.records[k].id == m1.index[i].id
                && m1.records[k].columns.contains(m1.index[i].value));
        } else {
            assert(m1.records[j] == m0.records[j]);
        }
    }
    assert forall|i: int, j: int|
        0 <= i < j < m1.duplicates.len() implies m1.duplicates[i] != m1.duplicates[j] by {
        assert(m1.duplicates[i] == m0.duplicates[i]);
        assert(m1.duplicates[j] == m0.duplicates[j]);
    }
}

/// Prepending a fresh entry and capping keeps the history consistent.
pub proof fn lemma_push_history_ok(m0: StoreModel, m1: StoreModel, e: HistModel)
    requires
        m0.history_ok(),
        e.id == m0.next_history_id,
        m0.next_history_id < u64::MAX,
        m1.history == cap_history(seq![e] + m0.history),
        m1.next_history_id == m0.next_history_id + 1,
    ensures
        m1.history_ok(),
{
    let all = seq![e] + m0.history;
    assert(all[0] == e);
    assert forall|i: int| 0 < i < all.len() implies all[i] == m0.history[i - 1] by {}
    assert(m1.history.len() <= HISTORY_CAP);
    assert forall|i: int| 0 <= i < m1.history.len() implies (#[trigger] m1.history[i]).id
        < m1.next_history_id by {
        assert(m1.history[i] == all[i]);
        if i > 0 {
            assert(all[i] == m0.history[i - 1]);
        }
    }
    assert forall|i: int, j: int|
        0 <= i < j < m1.history.len() implies m1.history[i].id != m1.history[j].id by {
        assert(m1.history[i] == all[i]);
        assert(m1.history[j] == all[j]);
        assert(all[j] == m0.history[j - 1]);
        if i > 0 {
            assert(all[i] == m0.history[i - 1]);
        }
    }
}

/// A second verification always fails: verifying a freshly verified
/// record reports it as already verified, changes nothing, and leaves
/// its query count and timestamp as the first verification set them.
pub proof fn lemma_verify_at_most_once(m: StoreModel, id: Seq<char>, t1: Seq<char>, t2: Seq<char>)
    requires
        m.wf(),
        spec_verify_outcome(m, id) is Verified,
    ensures
        spec_verify_outcome(spec_verify_store(m, id, t1), id) is AlreadyVerified,
        spec_verify_store(spec_verify_store(m, id, t1), id, t2) == spec_verify_store(m, id, t1),
        spec_verify_store(m, id, t1).records[rec_idx(spec_verify_store(m, id, t1).records, id)]
            == (RecModel {
            verified: true,
            verified_at: Option::Some(t1),
            ..m.records[rec_idx(m.records, id)]
        }),
{
    let k = rec_idx(m.records, id);
    assert(0 <= k < m.records.len() && m.records[k].id == id);
    let m1 = spec_verify_store(m, id, t1);
    assert(m1.records == m.records.update(
        k,
        RecModel { verified: true, verified_at: Option::Some(t1), ..m.records[k] },
    ));
    assert(m1.records[k].id == id);
    assert forall|i: int, j: int|
        0 <= i < j < m1.records.len() implies m1.records[i].id != m1.records[j].id by {
        assert(m1.records[i].id == m.records[i].id);
        assert(m1.records[j].id == m.records[j].id);
    }
    lemma_rec_idx_is(m1.records, id, k);
    assert(m1.records[k].verified);
    assert(spec_verify_outcome(m1, id) is AlreadyVerified);
}

impl Store {
    /// Prepends a history entry and cuts the log back to capacity.
    fn push_history(&mut self, e: HistoryRecord)
        ensures
            final(self)@.history == cap_history(seq![e@] + old(self)@.history),
            final(self)@.records == old(self)@.records,
            final(self)@.index == old(self)@.index,
            final(self)@.duplicates == old(self)@.duplicates,
            final(self)@.next_history_id == old(self)@.next_history_id,
    {
        let ghost e_model = e@;
        let ghost h0 = hists_model(self.history@);
        self.history.insert(0, e);
        proof {
            assert(hists_model(self.history@) =~= seq![e_model] + h0);
        }
        if self.history.len() > HISTORY_CAP {
            let ghost h1 = hists_model(self.history@);
            self.history.truncate(HISTORY_CAP);
            proof {
                assert(hists_model(self.history@) =~= h1.take(HISTORY_CAP as int));
            }
        }
    }

    /// Marks the record as verified, once: fails when the id is unknown
    /// or the record is already verified, and in either failure changes
    /// nothing.
    pub fn verify_record_at(&mut self, record_id: &String, now: String) -> (r: Result<
        DataRecord,
        String,
    >)
        requires
            old(self)@.wf(),
        ensures
            final(self)@.wf(),
            final(self)@ == spec_verify_store(old(self)@, record_id@, now@),
            (r is Ok) == (spec_verify_outcome(old(self)@, record_id@) is Verified),
            spec_verify_outcome(old(self)@, record_id@) is NotFound ==> (r matches Result::Err(e)
                && e@ == "record not found"@),
            spec_verify_outcome(old(self)@, record_id@) is AlreadyVerified ==> (r matches
                Result::Err(e) && e@ == "record already verified"@),
            r matches Result::Ok(rec) ==> rec@ == final(self)@.records[rec_idx(
                final(self)@.records,
                record_id@,
            )],
    {
        let ghost m0 = self@;
        match find_by_id(&self.records, record_id) {
            Option::None => {
                proof {
                    assert(!has_rec(m0.records, record_id@));
                }
                Result::Err(String::from_str("record not found"))
            },
            Option::Some(k) => {
                proof {
                    lemma_rec_idx_is(m0.records, record_id@, k as int);
                }
                if self.records[k].is_verified {
                    proof {
                        assert(spec_verify_outcome(m0, record_id@) is AlreadyVerified);
                    }
                    Result::Err(String::from_str("record already verified"))
                } else {
                    let mut rec = self.records.remove(k);
                    rec.is_verified = true;
                    rec.verify_time = Option::Some(now);
                    let out = clone_record(&rec);
                    let ghost rec_model = rec@;
                    self.records.insert(k, rec);
                    proof {
                        let m1 = self@;
                        assert(recs_model(self.records@) =~= m0.records.update(
                            k as int,
                            rec_model,
                        ));
                        assert(rec_model == RecModel {
                            verified: true,
                            verified_at: Option::Some(now@),
                            ..m0.records[k as int]
                        });
                        assert(m1 == spec_verify_store(m0, record_id@, now@));
                        lemma_update_usage_preserves(m0, m1, k as int);
                        assert(m1.history == m0.history);
                        assert(m1.wf());
                        lemma_rec_idx_is(m1.records, record_id@, k as int);
                        assert(out@ == m1.records[rec_idx(m1.records, record_id@)]);
                    }
                    Result::Ok(out)
                }
            },
        }
    }

    /// Marks the record as verified, once, stamping it with the current
    /// wall-clock time.
    pub fn verify_record(&mut self, record_id: &String) -> (r: Result<DataRecord, String>)
        requires
            old(self)@.wf(),
        ensures
            final(self)@.wf(),
            exists|now: Seq<char>|
                final(self)@ == spec_verify_store(old(self)@, record_id@, now),
            (r is Ok) == (spec_verify_outcome(old(self)@, record_id@) is Verified),
            spec_verify_outcome(old(self)@, record_id@) is NotFound ==> (r matches Result::Err(e)
                && e@ == "record not found"@),
            spec_verify_outcome(old(self)@, record_id@) is AlreadyVerified ==> (r matches
                Result::Err(e) && e@ == "record already verified"@),
            r matches Result::Ok(rec) ==> rec@ == final(self)@.records[rec_idx(
                final(self)@.records,
                record_id@,
            )],
    {
        let now = crate::clock::now_string();
        let ghost now_view = now@;
        let r = self.verify_record_at(record_id, now);
        proof {
            assert(final(self)@ == spec_verify_store(old(self)@, record_id@, now_view));
        }
        r
    }

    /// Resolves a key through the value index: on a hit, bumps the
    /// record's query count, logs a hit entry and reports the record,
    /// its duplicate flag and the leftmost matching column; on a miss,
    /// logs a miss entry and reports nothing found.
    pub fn query_data_at(&mut self, query_key: &String, now: String) -> (r: QueryResult)
        requires
            old(self)@.wf(),
            old(self)@.next_history_id < u64::MAX,
        ensures
            final(self)@.wf(),
            final(self)@ == spec_query_store(old(self)@, query_key@, now@),
            r.found == query_hit(old(self)@, query_key@),
            !r.found ==> r.record is None && !r.is_duplicate && r.matched_column is None,
            r.found ==> r.is_duplicate == old(self)@.duplicates.contains(query_key@),
            r.found ==> (r.record matches Option::Some(rec) && rec@ == final(self)@.records[
                rec_idx(old(self)@.records, idx_lookup(old(self)@.index, query_key@))]),
            r.found ==> ((r.matched_column is Some) == (spec_first_col(
                old(self)@.records[rec_idx(old(self)@.records, idx_lookup(
                    old(self)@.index,
                    query_key@,
                ))].columns,
                query_key@,
            ) is Some)),
            r.found ==> (r.matched_column matches Option::Some(c) ==> spec_first_col(
                old(self)@.records[rec_idx(old(self)@.records, idx_lookup(
                    old(self)@.index,
                    query_key@,
                ))].columns,
                query_key@,
            ) == Option::Some(c as int)),
    {
        let ghost m0 = self@;
        match find_index_entry(&self.index, query_key) {
            Option::Some(ei) => {
                proof {
                    lemma_idx_pos_is(m0.index, query_key@, ei as int);
                }
                let id = self.index[ei].id.clone();
                proof {
                    assert(id@ == idx_lookup(m0.index, query_key@));
                }
                match find_by_id(&self.records, &id) {
                    Option::Some(ri) => {
                        proof {
                            lemma_rec_idx_is(m0.records, id@, ri as int);
                            assert(query_hit(m0, query_key@));
                        }
                        let mut rec = self.records.remove(ri);
                        let ghost old_rec = rec@;
                        if rec.query_count < u32::MAX {
                            rec.query_count = rec.query_count + 1;
                        }
                        let out = clone_record(&rec);
                        let ghost rec_model = rec@;
                        let is_dup = contains_string(&self.duplicates, query_key);
                        let matched = position_of(&rec.all_columns, query_key);
                        let link_copy = rec.link.clone();
                        let verified_now = rec.is_verified;
                        self.records.insert(ri, rec);
                        proof {
                            assert(recs_model(self.records@) =~= m0.records.update(
                                ri as int,
                                rec_model,
                            ));
                            assert(rec_model == RecModel {
                                query_count: inc_count(old_rec.query_count),
                                ..old_rec
                            });
                        }
                        let e = HistoryRecord {
                            id: self.next_history_id,
                            query_time: now,
                            query_key: query_key.clone(),
                            query_result: Option::Some(link_copy),
                            is_verified: verified_now,
                        };
                        let ghost e_model = e@;
                        self.push_history(e);
                        self.next_history_id = self.next_history_id + 1;
                        proof {
                            let m1 = self@;
                            assert(e_model == HistModel {
                                id: m0.next_history_id,
                                time: now@,
                                key: query_key@,
                                result: Option::Some(old_rec.link),
                                verified: old_rec.verified,
                            });
                            assert(m1 == spec_query_store(m0, query_key@, now@));
                            lemma_update_usage_preserves(m0, m1, ri as int);
                            lemma_push_history_ok(m0, m1, e_model);
                            assert(m1.wf());
                        }
                        QueryResult {
                            found: true,
                            record: Option::Some(out),
                            is_duplicate: is_dup,
                            matched_column: matched,
                        }
                    },
                    Option::None => {
                        proof {
                            assert(entry_ok(m0.records, m0.index[ei as int]));
                            assert(false);
                        }
                        QueryResult {
                            found: false,
                            record: Option::None,
                            is_duplicate: false,
                            matched_column: Option::None,
                        }
                    },
                }
            },
            Option::None => {
                proof {
                    assert(!query_hit(m0, query_key@));
                }
                let e = HistoryRecord {
                    id: self.next_history_id,
                    query_time: now,
                    query_key: query_key.clone(),
                    query_result: Option::None,
                    is_verified: false,
                };
                let ghost e_model = e@;
                self.push_history(e);
                self.next_history_id = self.next_history_id + 1;
                proof {
                    let m1 = self@;
                    assert(m1 == spec_query_store(m0, query_key@, now@));
                    lemma_tables_transfer(m0, m1);
                    lemma_push_history_ok(m0, m1, e_model);
                    assert(m1.wf());
                }
                QueryResult {
                    found: false,
                    record: Option::None,
                    is_duplicate: false,
                    matched_column: Option::None,
                }
            },
        }
    }

    /// Resolves a key at the current wall-clock time.
    pub fn query_data(&mut self, query_key: &String) -> (r: QueryResult)
        requires
            old(self)@.wf(),
            old(self)@.next_history_id < u64::MAX,
        ensures
            final(self)@.wf(),
            exists|now: Seq<char>|
                final(self)@ == spec_query_store(old(self)@, query_key@, now),
            r.found == query_hit(old(self)@, query_key@),
            !r.found ==> r.record is None && !r.is_duplicate && r.matched_column is None,
            r.found ==> r.is_duplicate == old(self)@.duplicates.contains(query_key@),
            r.found ==> (r.record matches Option::Some(rec) && rec@ == final(self)@.records[
                rec_idx(old(self)@.records, idx_lookup(old(self)@.index, query_key@))]),
            r.found ==> (r.matched_column matches Option::Some(c) ==> spec_first_col(
                old(self)@.records[rec_idx(old(self)@.records, idx_lookup(
                    old(self)@.index,
                    query_key@,
                ))].columns,
                query_key@,
            ) == Option::Some(c as int)),
    {
        let now = crate::clock::now_string();
        let ghost now_view = now@;
        let r = self.query_data_at(query_key, now);
        proof {
            assert(final(self)@ == spec_query_store(old(self)@, query_key@, now_view));
        }
        r
    }
}

/// The leftmost position of the key among the columns, if any.
fn position_of(cols: &Vec<String>, key: &String) -> (r: Option<usize>)
    ensures
        (r is Some) == (spec_first_col(cols.deep_view(), key@) is Some),
        r matches Option::Some(c) ==> spec_first_col(cols.deep_view(), key@) == Option::Some(
            c as int,
        ),
{
    let mut i: usize = 0;
    while i < cols.len()
        invariant
            0 <= i <= cols@.len(),
            forall|k: int| 0 <= k < i ==> cols.deep_view()[k] != key@,
        decreases cols@.len() - i,
    {
        if string_eq(&cols[i], key) {
            proof {
                assert(cols.deep_view()[i as int] == key@);
                lemma_first_col_some(cols.deep_view(), key@, i as int);
            }
            return Option::Some(i);
        }
        i += 1;
    }
    proof {
        lemma_first_col_none(cols.deep_view(), key@);
    }
    Option::None
}


/// Every cell of a row, trimmed.
pub open spec fn spec_trim_row(row: Seq<Seq<char>>) -> Seq<Seq<char>> {
    row.map_values(|c: Seq<char>| trim_of(c))
}

/// The saved snapshot's records pair a verification flag with a
/// timestamp consistently.
pub open spec fn saved_consistent(rs: Seq<RecModel>) -> bool {
    forall|i: int|
        0 <= i < rs.len() ==> ((#[trigger] rs[i]).verified <==> rs[i].verified_at is Some)
}

/// `j` is the first position holding the id.
pub open spec fn is_first_with_id(rs: Seq<RecModel>, id: Seq<char>, j: int) -> bool {
    0 <= j < rs.len() && rs[j].id == id && forall|k: int| 0 <= k < j ==> rs[k].id != id
}

/// The first position holding the id (unique when it exists).
pub open spec fn first_idx_with(rs: Seq<RecModel>, id: Seq<char>) -> int {
    choose|j: int| is_first_with_id(rs, id, j)
}

/// The query count a fresh record inherits from the saved snapshot.
pub open spec fn inherited_count(rs: Seq<RecModel>, id: Seq<char>) -> u32 {
    if has_rec(rs, id) {
        rs[first_idx_with(rs, id)].query_count
    } else {
        0
    }
}

/// The verified flag a fresh record inherits from the saved snapshot.
pub open spec fn inherited_verified(rs: Seq<RecModel>, id: Seq<char>) -> bool {
    if has_rec(rs, id) {
        rs[first_idx_with(rs, id)].verified
    } else {
        false
    }
}

/// The verification timestamp a fresh record inherits from the saved
/// snapshot.
pub open spec fn inherited_verified_at(rs: Seq<RecModel>, id: Seq<char>) -> Option<Seq<char>> {
    if has_rec(rs, id) {
        rs[first_idx_with(rs, id)].verified_at
    } else {
        Option::None
    }
}

/// A first position, once found, pins down `first_idx_with`.
pub proof fn lemma_first_idx_is(rs: Seq<RecModel>, id: Seq<char>, j: int)
    requires
        is_first_with_id(rs, id, j),
    ensures
        has_rec(rs, id),
        first_idx_with(rs, id) == j,
{
    assert(has_rec(rs, id));
    let j2 = first_idx_with(rs, id);
    assert(is_first_with_id(rs, id, j2));
    if j2 < j {
        assert(rs[j2].id != id);
        assert(false);
    }
    if j < j2 {
        assert(rs[j].id != id);
        assert(false);
    }
}

/// The index after one value is (re)pointed at an id: an existing entry
/// for the value is overwritten, a missing one appended.
pub open spec fn upsert(ix: Seq<IndexModel>, v: Seq<char>, id: Seq<char>) -> Seq<IndexModel> {
    if idx_has(ix, v) {
        ix.update(idx_pos(ix, v), IndexModel { value: v, id: id })
    } else {
        ix.push(IndexModel { value: v, id: id })
    }
}

/// The index after every non-empty cell of a row is pointed at the
/// row's id, left to right.
pub open spec fn upsert_all(ix: Seq<IndexModel>, cols: Seq<Seq<char>>, id: Seq<char>) -> Seq<
    IndexModel,
>
    decreases cols.len(),
{
    if cols.len() == 0 {
        ix
    } else {
        let prev = upsert_all(ix, cols.drop_last(), id);
        if cols.last().len() == 0 {
            prev
        } else {
            upsert(prev, cols.last(), id)
        }
    }
}

/// What one upsert does: values stay unique and non-empty, the value
/// maps to the id, other entries stay exactly as they were, and no new
/// values appear.
pub proof fn lemma_upsert_props(ix: Seq<IndexModel>, v: Seq<char>, id: Seq<char>)
    requires
        forall|i: int, j: int| 0 <= i < j < ix.len() ==> ix[i].value != ix[j].value,
        forall|i: int| 0 <= i < ix.len() ==> (#[trigger] ix[i]).value.len() > 0,
        v.len() > 0,
    ensures
        forall|i: int, j: int|
            0 <= i < j < upsert(ix, v, id).len() ==> upsert(ix, v, id)[i].value != upsert(
                ix,
                v,
                id,
            )[j].value,
        forall|i: int|
            0 <= i < upsert(ix, v, id).len() ==> (#[trigger] upsert(ix, v, id)[i]).value.len() > 0,
        idx_has(upsert(ix, v, id), v),
        upsert(ix, v, id)[idx_pos(upsert(ix, v, id), v)].id == id,
        forall|i: int|
            0 <= i < upsert(ix, v, id).len() ==> ((exists|j: int|
                0 <= j < ix.len() && upsert(ix, v, id)[i] == ix[j]) || ((#[trigger] upsert(
                ix,
                v,
                id,
            )[i]).value == v && upsert(ix, v, id)[i].id == id)),
        forall|w: Seq<char>|
            #[trigger] idx_has(upsert(ix, v, id), w) <==> (idx_has(ix, w) || w == v),
        forall|w: Seq<char>|
            w != v && #[trigger] idx_has(ix, w) ==> upsert(ix, v, id)[idx_pos(
                upsert(ix, v, id),
                w,
            )] == ix[idx_pos(ix, w)],
{
    let out = upsert(ix, v, id);
    if idx_has(ix, v) {
        let p = idx_pos(ix, v);
        assert(0 <= p < ix.len() && ix[p].value == v);
        assert(out == ix.update(p, IndexModel { value: v, id: id }));
        assert forall|i: int| 0 <= i < out.len() implies (#[trigger] out[i]).value
            == ix[i].value by {}
        assert forall|i: int, j: int|
            0 <= i < j < out.len() implies out[i].value != out[j].value by {
            assert(out[i].value == ix[i].value);
            assert(out[j].value == ix[j].value);
        }
        lemma_idx_pos_is(out, v, p);
        assert forall|w: Seq<char>|
            #[trigger] idx_has(out, w) implies (idx_has(ix, w) || w == v) by {
            let i = choose|i: int| 0 <= i < out.len() && out[i].value == w;
            assert(ix[i].value == w);
        }
        assert forall|w: Seq<char>| idx_has(ix, w) implies #[trigger] idx_has(out, w) by {
            let i = choose|i: int| 0 <= i < ix.len() && ix[i].value == w;
            assert(out[i].value == w);
        }
        assert forall|w: Seq<char>|
            w != v && #[trigger] idx_has(ix, w) implies out[idx_pos(out, w)] == ix[idx_pos(
            ix,
            w,
        )] by {
            let q = idx_pos(ix, w);
            assert(0 <= q < ix.len() && ix[q].value == w);
            assert(q != p);
            assert(out[q] == ix[q]);
            lemma_idx_pos_is(out, w, q);
        }
    } else {
        assert(out == ix.push(IndexModel { value: v, id: id }));
        assert forall|i: int, j: int|
            0 <= i < j < out.len() implies out[i].value != out[j].value by {
            if j < ix.len() {
                assert(out[i] == ix[i] && out[j] == ix[j]);
            } else {
                assert(out[j].value == v);
                assert(out[i] == ix[i]);
                assert(!idx_has(ix, v));
                if ix[i].value == v {
                    assert(idx_has(ix, v));
                }
            }
        }
        lemma_idx_pos_is(out, v, ix.len() as int);
        assert forall|w: Seq<char>|
            #[trigger] idx_has(out, w) implies (idx_has(ix, w) || w == v) by {
            let i = choose|i: int| 0 <= i < out.len() && out[i].value == w;
            if i < ix.len() {
                assert(ix[i].value == w);
            }
        }
        assert forall|w: Seq<char>| idx_has(ix, w) implies #[trigger] idx_has(out, w) by {
            let i = choose|i: int| 0 <= i < ix.len() && ix[i].value == w;
            assert(out[i].value == w);
        }
        assert forall|w: Seq<char>|
            w != v && #[trigger] idx_has(ix, w) implies out[idx_pos(out, w)] == ix[idx_pos(
            ix,
            w,
        )] by {
            let q = idx_pos(ix, w);
            assert(0 <= q < ix.len() && ix[q].value == w);
            assert(out[q] == ix[q]);
            lemma_idx_pos_is(out, w, q);
        }
    }
}

/// What a whole row of upserts does: values stay unique and non-empty,
/// every non-empty cell value ends up mapped to the row's id, every
/// entry either was already there or is one of the row's cells, and no
/// other values appear.
pub proof fn lemma_upsert_all_props(ix: Seq<IndexModel>, cols: Seq<Seq<char>>, id: Seq<char>)
    requires
        forall|i: int, j: int| 0 <= i < j < ix.len() ==> ix[i].value != ix[j].value,
        forall|i: int| 0 <= i < ix.len() ==> (#[trigger] ix[i]).value.len() > 0,
    ensures
        forall|i: int, j: int|
            0 <= i < j < upsert_all(ix, cols, id).len() ==> upsert_all(ix, cols, id)[i].value
                != upsert_all(ix, cols, id)[j].value,
        forall|i: int|
            0 <= i < upsert_all(ix, cols, id).len() ==> (#[trigger] upsert_all(
                ix,
                cols,
                id,
            )[i]).value.len() > 0,
        forall|i: int|
            0 <= i < upsert_all(ix, cols, id).len() ==> ((exists|j: int|
                0 <= j < ix.len() && upsert_all(ix, cols, id)[i] == ix[j]) || ((#[trigger] upsert_all(
                ix,
                cols,
                id,
            )[i]).id == id && cols.contains(upsert_all(ix, cols, id)[i].value))),
        forall|v: Seq<char>|
            cols.contains(v) && v.len() > 0 ==> #[trigger] idx_has(upsert_all(ix, cols, id), v)
                && upsert_all(ix, cols, id)[idx_pos(upsert_all(ix, cols, id), v)].id == id,
        forall|v: Seq<char>|
            #[trigger] idx_has(upsert_all(ix, cols, id), v) <==> (idx_has(ix, v) || (cols.contains(
                v,
            ) && v.len() > 0)),
    decreases cols.len(),
{
    let out = upsert_all(ix, cols, id);
    if cols.len() == 0 {
        assert forall|v: Seq<char>| cols.contains(v) && v.len() > 0 implies #[trigger] idx_has(
            out,
            v,
        ) && out[idx_pos(out, v)].id == id by {
            assert(false);
        }
    } else {
        let front = cols.drop_last();
        let c = cols.last();
        let prev = upsert_all(ix, front, id);
        lemma_upsert_all_props(ix, front, id);
        assert forall|v: Seq<char>| #[trigger] cols.contains(v) implies (front.contains(v) || v
            == c) by {
            let i = choose|i: int| 0 <= i < cols.len() && cols[i] == v;
            if i < cols.len() - 1 {
                assert(front[i] == v);
            }
        }
        assert forall|v: Seq<char>| front.contains(v) implies #[trigger] cols.contains(v) by {
            let i = choose|i: int| 0 <= i < front.len() && front[i] == v;
            assert(cols[i] == v);
        }
        assert(cols.contains(c)) by {
            assert(cols[cols.len() - 1] == c);
        }
        if c.len() == 0 {
            assert(out == prev);
            assert forall|v: Seq<char>|
                cols.contains(v) && v.len() > 0 implies #[trigger] idx_has(out, v) && out[idx_pos(
                out,
                v,
            )].id == id by {
                assert(front.contains(v) || v == c);
                assert(front.contains(v));
            }
        } else {
            assert(out == upsert(prev, c, id));
            lemma_upsert_props(prev, c, id);
            assert forall|v: Seq<char>|
                cols.contains(v) && v.len() > 0 implies #[trigger] idx_has(out, v) && out[idx_pos(
                out,
                v,
            )].id == id by {
                if v == c {
                } else {
                    assert(front.contains(v));
                    assert(idx_has(prev, v) && prev[idx_pos(prev, v)].id == id);
                    assert(out[idx_pos(out, v)] == prev[idx_pos(prev, v)]);
                }
            }
            assert forall|i: int|
                0 <= i < out.len() implies ((exists|j: int| 0 <= j < ix.len() && out[i] == ix[j])
                || ((#[trigger] out[i]).id == id && cols.contains(out[i].value))) by {
                if out[i].value == c && out[i].id == id {
                    assert(cols.contains(out[i].value));
                } else {
                    assert(exists|j: int| 0 <= j < prev.len() && out[i] == prev[j]);
                    let j = choose|j: int| 0 <= j < prev.len() && out[i] == prev[j];
                    assert((exists|j2: int| 0 <= j2 < ix.len() && prev[j] == ix[j2]) || (prev[j].id
                        == id && front.contains(prev[j].value)));
                }
            }
        }
    }
}

impl Store {
    /// Empties the record store, value index and duplicate set ahead of
    /// a fresh folder load; the history is untouched.
    pub fn begin_load(&mut self)
        requires
            old(self)@.wf(),
        ensures
            final(self)@.wf(),
            final(self)@.records.len() == 0,
            final(self)@.index.len() == 0,
            final(self)@.duplicates.len() == 0,
            final(self)@.history == old(self)@.history,
            final(self)@.next_history_id == old(self)@.next_history_id,
    {
        self.records.clear();
        self.index.clear();
        self.duplicates.clear();
        proof {
            assert(recs_model(self.records@) =~= Seq::<RecModel>::empty());
            assert(idx_model(self.index@) =~= Seq::<IndexModel>::empty());
            assert(self.duplicates.deep_view() =~= Seq::<Seq<char>>::empty());
            assert(self@.wf());
        }
    }
}

/// Overwrites or appends the index entry for one value.
fn upsert_entry(ix: &mut Vec<IndexEntry>, value: &String, id: &String)
    requires
        forall|i: int, j: int|
            0 <= i < j < old(ix)@.len() ==> idx_model(old(ix)@)[i].value != idx_model(
                old(ix)@,
            )[j].value,
    ensures
        idx_model(final(ix)@) == upsert(idx_model(old(ix)@), value@, id@),
{
    let ghost ix0 = idx_model(ix@);
    match find_index_entry(ix, value) {
        Option::Some(k) => {
            proof {
                lemma_idx_pos_is(ix0, value@, k as int);
            }
            let mut e = ix.remove(k);
            e.id = id.clone();
            e.value = value.clone();
            let ghost e_model = e@;
            ix.insert(k, e);
            proof {
                assert(e_model == IndexModel { value: value@, id: id@ });
                assert(idx_model(ix@) =~= ix0.update(k as int, e_model));
            }
        },
        Option::None => {
            let e = IndexEntry { value: value.clone(), id: id.clone() };
            let ghost e_model = e@;
            ix.push(e);
            proof {
                let lhs = idx_model(ix@);
                assert(ix@.len() == ix0.len() + 1);
                assert(lhs[lhs.len() - 1] == e_model);
                assert forall|k: int| 0 <= k < ix0.len() implies lhs[k] == ix0[k] by {
                    assert(ix@[k] == ix@.subrange(0, ix@.len() - 1)[k]);
                }
                assert(lhs =~= ix0.push(e_model));
            }
        },
    }
}


/// The row yields a fresh record: at least two cells, a non-empty
/// trimmed id, and no record with that id yet.
pub open spec fn row_accepted(m: StoreModel, row: Seq<Seq<char>>) -> bool {
    row.len() >= 2 && trim_of(row[0]).len() > 0 && !has_rec(m.records, trim_of(row[0]))
}

/// The store after one raw row is offered to it.  Short rows and rows
/// with an empty trimmed id change nothing; a repeated id only joins
/// the duplicate set; a fresh id becomes a record that inherits its
/// usage state from the saved snapshot, with every non-empty cell
/// indexed to it.
pub open spec fn spec_ingest_row(
    m: StoreModel,
    row: Seq<Seq<char>>,
    saved: Seq<RecModel>,
) -> StoreModel {
    if row.len() < 2 {
        m
    } else {
        let tr = spec_trim_row(row);
        let id = tr[0];
        if id.len() == 0 {
            m
        } else if has_rec(m.records, id) {
            if m.duplicates.contains(id) {
                m
            } else {
                StoreModel { duplicates: m.duplicates.push(id), ..m }
            }
        } else {
            let rec = RecModel {
                id: id,
                link: tr[1],
                columns: tr,
                query_count: inherited_count(saved, id),
                verified: inherited_verified(saved, id),
                verified_at: inherited_verified_at(saved, id),
            };
            StoreModel {
                records: m.records.push(rec),
                index: upsert_all(m.index, tr, id),
                ..m
            }
        }
    }
}

impl Store {
    /// Offers one raw row to the store, trimming its cells, skipping
    /// unusable rows, flagging duplicate ids, and indexing the columns
    /// of a fresh record.  Reports whether a record was added.
    pub fn ingest_row(&mut self, row: &Vec<String>, saved: &Vec<DataRecord>) -> (added: bool)
        requires
            old(self)@.wf(),
            saved_consistent(recs_model(saved@)),
        ensures
            final(self)@.wf(),
            final(self)@ == spec_ingest_row(old(self)@, row.deep_view(), recs_model(saved@)),
            added == row_accepted(old(self)@, row.deep_view()),
    {
        let ghost m0 = self@;
        let ghost row_model = row.deep_view();
        let ghost saved_model = recs_model(saved@);
        let ghost tr = spec_trim_row(row_model);
        if row.len() < 2 {
            return false;
        }
        let id = trim_string(&row[0]);
        let ghost id_view = id@;
        proof {
            assert(row_model[0] == row@[0]@);
            assert(tr[0] == trim_of(row_model[0]));
            assert(id_view == tr[0]);
        }
        if id.as_str().is_empty() {
            return false;
        }
        match find_by_id(&self.records, &id) {
            Option::Some(_k) => {
                proof {
                    assert(has_rec(m0.records, id_view));
                }
                if !contains_string(&self.duplicates, &id) {
                    let ghost d0 = self.duplicates.deep_view();
                    self.duplicates.push(id);
                    proof {
                        let lhs = self.duplicates.deep_view();
                        assert(self.duplicates@.len() == d0.len() + 1);
                        assert(lhs[lhs.len() - 1] == id_view);
                        assert forall|k: int| 0 <= k < d0.len() implies lhs[k] == d0[k] by {
                            assert(self.duplicates@[k] == self.duplicates@.subrange(
                                0,
                                self.duplicates@.len() - 1,
                            )[k]);
                        }
                        assert(lhs =~= d0.push(id_view));
                        let m1 = self@;
                        assert(m1 == spec_ingest_row(m0, row_model, saved_model));
                        assert forall|i: int, j: int|
                            0 <= i < j < m1.duplicates.len() implies m1.duplicates[i]
                            != m1.duplicates[j] by {
                            if j < d0.len() {
                                assert(m1.duplicates[i] == d0[i] && m1.duplicates[j] == d0[j]);
                            } else {
                                assert(m1.duplicates[j] == id_view);
                                assert(m1.duplicates[i] == d0[i]);
                                assert(!d0.contains(id_view));
                            }
                        }
                        assert(m1.wf());
                    }
                } else {
                    proof {
                        assert(self@ == spec_ingest_row(m0, row_model, saved_model));
                    }
                }
                false
            },
            Option::None => {
                proof {
                    assert(!has_rec(m0.records, id_view));
                    assert(row_accepted(m0, row_model));
                }
                let qc: u32;
                let vf: bool;
                let vt: Option<String>;
                match find_by_id(saved, &id) {
                    Option::Some(j) => {
                        proof {
                            assert(is_first_with_id(saved_model, id_view, j as int));
                            lemma_first_idx_is(saved_model, id_view, j as int);
                        }
                        qc = saved[j].query_count;
                        vf = saved[j].is_verified;
                        vt = clone_opt_string(&saved[j].verify_time);
                        proof {
                            assert(qc == inherited_count(saved_model, id_view));
                            assert(vf == inherited_verified(saved_model, id_view));
                            assert(match vt {
                                Option::Some(t) => Option::Some(t@),
                                Option::None => Option::<Seq<char>>::None,
                            } == inherited_verified_at(saved_model, id_view));
                        }
                    },
                    Option::None => {
                        proof {
                            assert(!has_rec(saved_model, id_view));
                        }
                        qc = 0;
                        vf = false;
                        vt = Option::None;
                    },
                }
                let mut cols: Vec<String> = Vec::new();
                let mut ci: usize = 0;
                while ci < row.len()
                    invariant
                        0 <= ci <= row@.len(),
                        row_model == row.deep_view(),
                        tr == spec_trim_row(row_model),
                        cols.deep_view() == tr.take(ci as int),
                    decreases row@.len() - ci,
                {
                    let t = trim_string(&row[ci]);
                    let ghost t_view = t@;
                    proof {
                        assert(row_model[ci as int] == row@[ci as int]@);
                        assert(t_view == tr[ci as int]);
                    }
                    let ghost prev_cols = cols.deep_view();
                    cols.push(t);
                    proof {
                        let lhs = cols.deep_view();
                        assert(cols@.len() == prev_cols.len() + 1);
                        assert(lhs[ci as int] == t_view);
                        assert forall|k: int| 0 <= k < ci implies lhs[k] == prev_cols[k] by {
                            assert(cols@[k] == cols@.subrange(0, cols@.len() - 1)[k]);
                        }
                        assert(lhs =~~= tr.take(ci + 1));
                    }
                    ci += 1;
                }
                proof {
                    assert(tr.take(tr.len() as int) =~~= tr);
                    assert(cols.deep_view() == tr);
                }
                let ghost ix0 = idx_model(self.index@);
                let mut k: usize = 0;
                while k < cols.len()
                    invariant
                        0 <= k <= cols@.len(),
                        cols.deep_view() == tr,
                        cols@.len() == tr.len(),
                        idx_model(self.index@) == upsert_all(ix0, tr.take(k as int), id_view),
                        ix0 == m0.index,
                        recs_model(self.records@) == m0.records,
                        self.duplicates.deep_view() == m0.duplicates,
                        hists_model(self.history@) == m0.history,
                        self.next_history_id == m0.next_history_id,
                        id_view == id@,
                        forall|i: int, j: int|
                            0 <= i < j < ix0.len() ==> ix0[i].value != ix0[j].value,
                        forall|i: int| 0 <= i < ix0.len() ==> (#[trigger] ix0[i]).value.len() > 0,
                    decreases cols@.len() - k,
                {
                    let ghost cur = upsert_all(ix0, tr.take(k as int), id_view);
                    proof {
                        assert(tr.take(k + 1).drop_last() =~~= tr.take(k as int));
                        assert(tr.take(k + 1).last() == tr[k as int]);
                        lemma_upsert_all_props(ix0, tr.take(k as int), id_view);
                    }
                    if !cols[k].as_str().is_empty() {
                        proof {
                            assert(cols.deep_view()[k as int] == cols@[k as int]@);
                            assert(cols@[k as int]@ == tr[k as int]);
                            assert(tr[k as int].len() > 0);
                        }
                        upsert_entry(&mut self.index, &cols[k], &id);
                        proof {
                            assert(idx_model(self.index@) == upsert(cur, tr[k as int], id_view));
                            assert(idx_model(self.index@) == upsert_all(
                                ix0,
                                tr.take(k + 1),
                                id_view,
                            ));
                        }
                    } else {
                        proof {
                            assert(cols.deep_view()[k as int] == cols@[k as int]@);
                            assert(tr[k as int].len() == 0);
                            assert(idx_model(self.index@) == upsert_all(
                                ix0,
                                tr.take(k + 1),
                                id_view,
                            ));
                        }
                    }
                    k += 1;
                }
                proof {
                    assert(tr.take(tr.len() as int) =~~= tr);
                    assert(idx_model(self.index@) == upsert_all(ix0, tr, id_view));
                }
                let link = cols[1].clone();
                proof {
                    assert(link@ == cols.deep_view()[1]);
                }
                let rec = DataRecord {
                    id: id,
                    link: link,
                    all_columns: cols,
                    query_count: qc,
                    is_verified: vf,
                    verify_time: vt,
                };
                let ghost rec_model = rec@;
                let ghost recs0 = recs_model(self.records@);
                self.records.push(rec);
                proof {
                    let lhs = recs_model(self.records@);
                    assert(self.records@.len() == recs0.len() + 1);
                    assert(lhs[lhs.len() - 1] == rec_model);
                    assert forall|k2: int| 0 <= k2 < recs0.len() implies lhs[k2] == recs0[k2] by {
                        assert(self.records@[k2] == self.records@.subrange(
                            0,
                            self.records@.len() - 1,
                        )[k2]);
                    }
                    assert(lhs =~= recs0.push(rec_model));
                    assert(rec_model == RecModel {
                        id: id_view,
                        link: tr[1],
                        columns: tr,
                        query_count: inherited_count(saved_model, id_view),
                        verified: inherited_verified(saved_model, id_view),
                        verified_at: inherited_verified_at(saved_model, id_view),
                    });
                    let m1 = self@;
                    let target = spec_ingest_row(m0, row_model, saved_model);
                    assert(row_model.len() >= 2);
                    assert(tr[0].len() > 0);
                    assert(!has_rec(m0.records, tr[0]));
                    assert(m1.records == m0.records.push(rec_model));
                    assert(m1.index == upsert_all(m0.index, tr, id_view));
                    assert(m1.duplicates == m0.duplicates);
                    assert(m1.history == m0.history);
                    assert(m1.next_history_id == m0.next_history_id);
                    assert(target.records == m0.records.push(rec_model));
                    assert(target.index == upsert_all(m0.index, tr, id_view));
                    assert(m1 == target);

                    // consistency of the grown tables
                    assert(rec_model.wf()) by {
                        assert(rec_model.verified <==> rec_model.verified_at is Some);
                        assert(tr.len() == row_model.len());
                        assert(tr[0] == id_view);
                    }
                    assert forall|i: int, j: int|
                        0 <= i < j < m1.records.len() implies m1.records[i].id
                        != m1.records[j].id by {
                        if j < m0.records.len() {
                            assert(m1.records[i] == m0.records[i] && m1.records[j]
                                == m0.records[j]);
                        } else {
                            assert(m1.records[j] == rec_model);
                            assert(m1.records[i] == m0.records[i]);
                            assert(!has_rec(m0.records, id_view));
                        }
                    }
                    assert forall|i: int| 0 <= i < m1.records.len() implies (#[trigger] m1.records[i]).wf() by {
                        if i < m0.records.len() {
                            assert(m1.records[i] == m0.records[i]);
                        } else {
                            assert(m1.records[i] == rec_model);
                        }
                    }
                    lemma_upsert_all_props(m0.index, tr, id_view);
                    assert forall|i: int| 0 <= i < m1.index.len() implies entry_ok(
                        m1.records,
                        #[trigger] m1.index[i],
                    ) by {
                        if exists|j: int| 0 <= j < m0.index.len() && m1.index[i] == m0.index[j] {
                            let j = choose|j: int|
                                0 <= j < m0.index.len() && m1.index[i] == m0.index[j];
                            assert(entry_ok(m0.records, m0.index[j]));
                            let w = choose|w: int|
                                0 <= w < m0.records.len() && (#[trigger] m0.records[w]).id
                                    == m0.index[j].id && m0.records[w].columns.contains(
                                    m0.index[j].value,
                                );
                            assert(m1.records[w] == m0.records[w]);
                        } else {
                            assert(m1.index[i].id == id_view && tr.contains(m1.index[i].value));
                            let w = m0.records.len() as int;
                            assert(m1.records[w] == rec_model);
                            assert(rec_model.id == id_view);
                            assert(rec_model.columns.contains(m1.index[i].value));
                        }
                    }
                    assert(m1.dups_ok()) by {
                        assert forall|i: int, j: int|
                            0 <= i < j < m1.duplicates.len() implies m1.duplicates[i]
                            != m1.duplicates[j] by {
                            assert(m1.duplicates[i] == m0.duplicates[i]);
                            assert(m1.duplicates[j] == m0.duplicates[j]);
                        }
                    }
                    assert(m1.wf());
                }
                true
            },
        }
    }
}


/// The store after a whole batch of rows, offered in order.
pub open spec fn spec_ingest_rows(
    m: StoreModel,
    rows: Seq<Seq<Seq<char>>>,
    saved: Seq<RecModel>,
) -> StoreModel
    decreases rows.len(),
{
    if rows.len() == 0 {
        m
    } else {
        spec_ingest_row(spec_ingest_rows(m, rows.drop_last(), saved), rows.last(), saved)
    }
}

/// How many of the rows yield a fresh record.
pub open spec fn spec_added(m: StoreModel, rows: Seq<Seq<Seq<char>>>, saved: Seq<RecModel>) -> int
    decreases rows.len(),
{
    if rows.len() == 0 {
        0
    } else {
        spec_added(m, rows.drop_last(), saved) + if row_accepted(
            spec_ingest_rows(m, rows.drop_last(), saved),
            rows.last(),
        ) {
            1int
        } else {
            0int
        }
    }
}

/// A count cut off at the counter's maximum.
pub open spec fn cap_count(n: int) -> int {
    if n < u32::MAX {
        n
    } else {
        u32::MAX as int
    }
}

/// Batch ingestion steps one row at a time.
pub proof fn lemma_ingest_rows_step(
    m: StoreModel,
    rows: Seq<Seq<Seq<char>>>,
    saved: Seq<RecModel>,
    n: int,
)
    requires
        0 <= n < rows.len(),
    ensures
        spec_ingest_rows(m, rows.take(n + 1), saved) == spec_ingest_row(
            spec_ingest_rows(m, rows.take(n), saved),
            rows[n],
            saved,
        ),
        spec_added(m, rows.take(n + 1), saved) == spec_added(m, rows.take(n), saved) + if
        row_accepted(spec_ingest_rows(m, rows.take(n), saved), rows[n]) {
            1int
        } else {
            0int
        },
{
    assert(rows.take(n + 1).drop_last() =~~= rows.take(n));
    assert(rows.take(n + 1).last() == rows[n]);
}

/// A record the store already has survives any further row.
pub proof fn lemma_ingest_row_keeps(m: StoreModel, row: Seq<Seq<char>>, saved: Seq<RecModel>)
    ensures
        forall|id: Seq<char>|
            has_rec(m.records, id) ==> #[trigger] has_rec(
                spec_ingest_row(m, row, saved).records,
                id,
            ),
        forall|x: Seq<char>|
            m.duplicates.contains(x) ==> #[trigger] spec_ingest_row(
                m,
                row,
                saved,
            ).duplicates.contains(x),
{
    let out = spec_ingest_row(m, row, saved);
    assert forall|id: Seq<char>| has_rec(m.records, id) implies #[trigger] has_rec(
        out.records,
        id,
    ) by {
        let i = choose|i: int| 0 <= i < m.records.len() && m.records[i].id == id;
        assert(out.records[i] == m.records[i]);
    }
    assert forall|x: Seq<char>| m.duplicates.contains(x) implies #[trigger] out.duplicates.contains(
        x,
    ) by {
        let i = choose|i: int| 0 <= i < m.duplicates.len() && m.duplicates[i] == x;
        assert(out.duplicates[i] == m.duplicates[i]);
    }
}

proof fn lemma_has_rec_upto(
    m: StoreModel,
    rows: Seq<Seq<Seq<char>>>,
    saved: Seq<RecModel>,
    n1: int,
    n2: int,
    id: Seq<char>,
)
    requires
        0 <= n1 <= n2 <= rows.len(),
        has_rec(spec_ingest_rows(m, rows.take(n1), saved).records, id),
    ensures
        has_rec(spec_ingest_rows(m, rows.take(n2), saved).records, id),
    decreases n2 - n1,
{
    if n1 < n2 {
        lemma_ingest_rows_step(m, rows, saved, n1);
        lemma_ingest_row_keeps(spec_ingest_rows(m, rows.take(n1), saved), rows[n1], saved);
        lemma_has_rec_upto(m, rows, saved, n1 + 1, n2, id);
    }
}

proof fn lemma_dups_upto(
    m: StoreModel,
    rows: Seq<Seq<Seq<char>>>,
    saved: Seq<RecModel>,
    n1: int,
    n2: int,
    x: Seq<char>,
)
    requires
        0 <= n1 <= n2 <= rows.len(),
        spec_ingest_rows(m, rows.take(n1), saved).duplicates.contains(x),
    ensures
        spec_ingest_rows(m, rows.take(n2), saved).duplicates.contains(x),
    decreases n2 - n1,
{
    if n1 < n2 {
        lemma_ingest_rows_step(m, rows, saved, n1);
        lemma_ingest_row_keeps(spec_ingest_rows(m, rows.take(n1), saved), rows[n1], saved);
        lemma_dups_upto(m, rows, saved, n1 + 1, n2, x);
    }
}

/// Two rows carrying the same usable id leave that id in the duplicate
/// set: only the first row's data is stored, the second only flags it.
pub proof fn lemma_duplicate_rows_flagged(
    m: StoreModel,
    rows: Seq<Seq<Seq<char>>>,
    saved: Seq<RecModel>,
    i: int,
    j: int,
)
    requires
        0 <= i < j < rows.len(),
        rows[i].len() >= 2,
        rows[j].len() >= 2,
        trim_of(rows[i][0]).len() > 0,
        trim_of(rows[i][0]) == trim_of(rows[j][0]),
    ensures
        spec_ingest_rows(m, rows, saved).duplicates.contains(trim_of(rows[j][0])),
{
    let id = trim_of(rows[i][0]);
    let mi = spec_ingest_rows(m, rows.take(i), saved);
    lemma_ingest_rows_step(m, rows, saved, i);
    let mi1 = spec_ingest_rows(m, rows.take(i + 1), saved);
    assert(mi1 == spec_ingest_row(mi, rows[i], saved));
    assert(spec_trim_row(rows[i])[0] == id);
    if has_rec(mi.records, id) {
        lemma_ingest_row_keeps(mi, rows[i], saved);
        assert(has_rec(mi1.records, id));
    } else {
        let rec = mi1.records.last();
        assert(mi1.records[mi1.records.len() - 1].id == id);
        assert(has_rec(mi1.records, id));
    }
    lemma_has_rec_upto(m, rows, saved, i + 1, j, id);
    let mj = spec_ingest_rows(m, rows.take(j), saved);
    assert(has_rec(mj.records, id));
    lemma_ingest_rows_step(m, rows, saved, j);
    let mj1 = spec_ingest_rows(m, rows.take(j + 1), saved);
    assert(mj1 == spec_ingest_row(mj, rows[j], saved));
    assert(spec_trim_row(rows[j])[0] == id);
    if mj.duplicates.contains(id) {
        lemma_ingest_row_keeps(mj, rows[j], saved);
        assert(mj1.duplicates.contains(id));
    } else {
        assert(mj1.duplicates == mj.duplicates.push(id));
        assert(mj1.duplicates[mj1.duplicates.len() - 1] == id);
        assert(mj1.duplicates.contains(id));
    }
    lemma_dups_upto(m, rows, saved, j + 1, rows.len() as int, id);
    assert(rows.take(rows.len() as int) =~~= rows);
}

/// Cross-column lookup: once a row is accepted, every one of its
/// non-empty trimmed cell values resolves through the value index to
/// that row's freshly added record, so a query on any column value of
/// the row finds the same record.
pub proof fn lemma_row_columns_queryable(m: StoreModel, row: Seq<Seq<char>>, saved: Seq<RecModel>)
    requires
        m.wf(),
        row_accepted(m, row),
    ensures
        spec_ingest_row(m, row, saved).records.last().id == trim_of(row[0]),
        spec_ingest_row(m, row, saved).records.last().columns == spec_trim_row(row),
        forall|c: Seq<char>|
            spec_trim_row(row).contains(c) && c.len() > 0 ==> #[trigger] query_hit(
                spec_ingest_row(m, row, saved),
                c,
            ) && idx_lookup(spec_ingest_row(m, row, saved).index, c) == trim_of(row[0])
                && spec_ingest_row(m, row, saved).records[rec_idx(
                spec_ingest_row(m, row, saved).records,
                idx_lookup(spec_ingest_row(m, row, saved).index, c),
            )] == spec_ingest_row(m, row, saved).records.last(),
{
    let tr = spec_trim_row(row);
    let id = trim_of(row[0]);
    assert(tr[0] == id);
    let m1 = spec_ingest_row(m, row, saved);
    assert(m1.records == m.records.push(m1.records.last()));
    assert(m1.records.last().id == id);
    assert(m1.index == upsert_all(m.index, tr, id));
    assert forall|i: int, j: int|
        0 <= i < j < m1.records.len() implies m1.records[i].id != m1.records[j].id by {
        if j < m.records.len() {
            assert(m1.records[i] == m.records[i] && m1.records[j] == m.records[j]);
        } else {
            assert(m1.records[i] == m.records[i]);
            assert(!has_rec(m.records, id));
        }
    }
    assert forall|c: Seq<char>| tr.contains(c) && c.len() > 0 implies (#[trigger] query_hit(m1, c)
        && idx_lookup(m1.index, c) == id && m1.records[rec_idx(m1.records, idx_lookup(
        m1.index,
        c,
    ))] == m1.records.last()) by {
        assert(tr.contains(c) && c.len() > 0);
        lemma_upsert_all_props(m.index, tr, id);
        assert(idx_has(upsert_all(m.index, tr, id), c));
        assert(upsert_all(m.index, tr, id)[idx_pos(upsert_all(m.index, tr, id), c)].id == id);
        assert(m1.index == upsert_all(m.index, tr, id));
        assert(idx_has(m1.index, c) && m1.index[idx_pos(m1.index, c)].id == id);
        assert(idx_lookup(m1.index, c) == id);
        let k = m1.records.len() - 1;
        assert(m1.records[k].id == id);
        lemma_rec_idx_is(m1.records, id, k);
        assert(has_rec(m1.records, id));
    }
}

/// A record carries exactly the usage state the saved snapshot holds
/// for its id (or the defaults when the snapshot has none).
pub open spec fn usage_inherited(rec: RecModel, saved: Seq<RecModel>) -> bool {
    &&& rec.query_count == inherited_count(saved, rec.id)
    &&& rec.verified == inherited_verified(saved, rec.id)
    &&& rec.verified_at == inherited_verified_at(saved, rec.id)
}

proof fn lemma_ingest_row_usage(m: StoreModel, row: Seq<Seq<char>>, saved: Seq<RecModel>)
    requires
        forall|i: int|
            0 <= i < m.records.len() ==> usage_inherited(#[trigger] m.records[i], saved),
    ensures
        forall|i: int|
            0 <= i < spec_ingest_row(m, row, saved).records.len() ==> usage_inherited(
                #[trigger] spec_ingest_row(m, row, saved).records[i],
                saved,
            ),
{
    let out = spec_ingest_row(m, row, saved);
    assert forall|i: int| 0 <= i < out.records.len() implies usage_inherited(
        #[trigger] out.records[i],
        saved,
    ) by {
        if i < m.records.len() {
            assert(out.records[i] == m.records[i]);
        } else {
            assert(out.records[i] == out.records.last());
        }
    }
}

/// Usage-state preservation across a reload: every record a batch of
/// rows builds carries the query count, verified flag and timestamp
/// that the saved snapshot holds for its id, and the defaults where the
/// snapshot has none.  Fresh row data never overwrites saved usage
/// state, and a store rebuilt from the snapshot alone reproduces it.
pub proof fn lemma_ingest_rows_usage(m: StoreModel, rows: Seq<Seq<Seq<char>>>, saved: Seq<RecModel>)
    requires
        forall|i: int|
            0 <= i < m.records.len() ==> usage_inherited(#[trigger] m.records[i], saved),
    ensures
        forall|i: int|
            0 <= i < spec_ingest_rows(m, rows, saved).records.len() ==> usage_inherited(
                #[trigger] spec_ingest_rows(m, rows, saved).records[i],
                saved,
            ),
    decreases rows.len(),
{
    if rows.len() > 0 {
        lemma_ingest_rows_usage(m, rows.drop_last(), saved);
        lemma_ingest_row_usage(spec_ingest_rows(m, rows.drop_last(), saved), rows.last(), saved);
    }
}

/// The store after a run of queries, asked in order.
pub open spec fn spec_query_run(
    m: StoreModel,
    keys: Seq<Seq<char>>,
    times: Seq<Seq<char>>,
) -> StoreModel
    decreases keys.len(),
{
    if keys.len() == 0 {
        m
    } else {
        spec_query_store(
            spec_query_run(m, keys.drop_last(), times.drop_last()),
            keys.last(),
            times.last(),
        )
    }
}

/// History cap law: every query, hit or miss, prepends exactly one
/// entry and the log is cut at the capacity, so a run of queries leaves
/// min(old + n, capacity) entries, and the newest entries, most recent
/// first, carry the keys of the latest queries.
pub proof fn lemma_query_run_history(m: StoreModel, keys: Seq<Seq<char>>, times: Seq<Seq<char>>)
    requires
        keys.len() == times.len(),
        m.history.len() <= HISTORY_CAP,
    ensures
        spec_query_run(m, keys, times).history.len() as int == if m.history.len() + keys.len()
            <= HISTORY_CAP {
            m.history.len() + keys.len()
        } else {
            HISTORY_CAP as nat
        },
        forall|i: int|
            0 <= i < keys.len() && i < HISTORY_CAP ==> spec_query_run(
                m,
                keys,
                times,
            ).history[i].key == keys[keys.len() - 1 - i],
    decreases keys.len(),
{
    if keys.len() > 0 {
        lemma_query_run_history(m, keys.drop_last(), times.drop_last());
        let prev = spec_query_run(m, keys.drop_last(), times.drop_last());
        let out = spec_query_run(m, keys, times);
        assert(out == spec_query_store(prev, keys.last(), times.last()));
        let all = if query_hit(prev, keys.last()) {
            seq![
                HistModel {
                    id: prev.next_history_id,
                    time: times.last(),
                    key: keys.last(),
                    result: Option::Some(
                        prev.records[rec_idx(prev.records, idx_lookup(prev.index, keys.last()))].link,
                    ),
                    verified: prev.records[rec_idx(
                        prev.records,
                        idx_lookup(prev.index, keys.last()),
                    )].verified,
                },
            ] + prev.history
        } else {
            seq![
                HistModel {
                    id: prev.next_history_id,
                    time: times.last(),
                    key: keys.last(),
                    result: Option::None,
                    verified: false,
                },
            ] + prev.history
        };
        assert(out.history == cap_history(all));
        assert(out.history.len() == if all.len() <= HISTORY_CAP {
            all.len()
        } else {
            HISTORY_CAP as nat
        });
        assert(all[0].key == keys.last());
        assert forall|i: int| 0 < i < all.len() implies all[i] == prev.history[i - 1] by {}
        assert forall|i: int|
            0 <= i < keys.len() && i < HISTORY_CAP implies out.history[i].key == keys[keys.len() - 1
            - i] by {
            assert(out.history[i] == all[i]);
            if i > 0 {
                assert(all[i] == prev.history[i - 1]);
                assert(prev.history[i - 1].key == keys.drop_last()[keys.len() - 1 - i]);
                assert(keys.drop_last()[keys.len() - 1 - i] == keys[keys.len() - 1 - i]);
            }
        }
    }
}

/// The history entries that survive deleting one id, oldest processed
/// first, order kept.
pub open spec fn keep_except(h: Seq<HistModel>, id: u64) -> Seq<HistModel>
    decreases h.len(),
{
    if h.len() == 0 {
        Seq::empty()
    } else {
        let prev = keep_except(h.drop_last(), id);
        if h.last().id == id {
            prev
        } else {
            prev.push(h.last())
        }
    }
}

proof fn lemma_keep_except_ok(h: Seq<HistModel>, id: u64, bound: u64)
    requires
        forall|i: int, j: int| 0 <= i < j < h.len() ==> h[i].id != h[j].id,
        forall|i: int| 0 <= i < h.len() ==> (#[trigger] h[i]).id < bound,
    ensures
        keep_except(h, id).len() <= h.len(),
        forall|a: int|
            0 <= a < keep_except(h, id).len() ==> h.contains(#[trigger] keep_except(h, id)[a]),
        forall|a: int, b: int|
            0 <= a < b < keep_except(h, id).len() ==> keep_except(h, id)[a].id != keep_except(
                h,
                id,
            )[b].id,
        forall|a: int| 0 <= a < keep_except(h, id).len() ==> (#[trigger] keep_except(h, id)[a]).id
            < bound,
        forall|a: int| 0 <= a < keep_except(h, id).len() ==> (#[trigger] keep_except(h, id)[a]).id
            != id,
    decreases h.len(),
{
    if h.len() > 0 {
        let front = h.drop_last();
        assert forall|i: int| 0 <= i < front.len() implies (#[trigger] front[i]).id < bound by {
            assert(front[i] == h[i]);
        }
        lemma_keep_except_ok(front, id, bound);
        let prev = keep_except(front, id);
        let out = keep_except(h, id);
        assert forall|a: int| 0 <= a < prev.len() implies h.contains(#[trigger] prev[a]) by {
            assert(front.contains(prev[a]));
            let w = choose|w: int| 0 <= w < front.len() && front[w] == prev[a];
            assert(h[w] == prev[a]);
        }
        if h.last().id != id {
            assert(out == prev.push(h.last()));
            assert(h.contains(h.last())) by {
                assert(h[h.len() - 1] == h.last());
            }
            assert forall|a: int, b: int|
                0 <= a < b < out.len() implies out[a].id != out[b].id by {
                if b < prev.len() {
                    assert(out[a] == prev[a] && out[b] == prev[b]);
                } else {
                    assert(out[b] == h.last());
                    assert(out[a] == prev[a]);
                    assert(front.contains(prev[a]));
                    let w = choose|w: int| 0 <= w < front.len() && front[w] == prev[a];
                    assert(h[w].id != h[h.len() - 1].id);
                }
            }
        }
    }
}

/// Copies a history entry.
fn clone_history(h: &HistoryRecord) -> (c: HistoryRecord)
    ensures
        c@ == h@,
{
    let c = HistoryRecord {
        id: h.id,
        query_time: h.query_time.clone(),
        query_key: h.query_key.clone(),
        query_result: clone_opt_string(&h.query_result),
        is_verified: h.is_verified,
    };
    proof {
        assert(c@.result == h@.result);
    }
    c
}

impl Store {
    /// Removes the history entry with the given id, if present; the
    /// remaining entries keep their order.
    pub fn delete_history_item(&mut self, id: u64)
        requires
            old(self)@.wf(),
        ensures
            final(self)@.wf(),
            final(self)@.history == keep_except(old(self)@.history, id),
            final(self)@.records == old(self)@.records,
            final(self)@.index == old(self)@.index,
            final(self)@.duplicates == old(self)@.duplicates,
            final(self)@.next_history_id == old(self)@.next_history_id,
    {
        let ghost m0 = self@;
        let mut out: Vec<HistoryRecord> = Vec::new();
        let mut i: usize = 0;
        while i < self.history.len()
            invariant
                0 <= i <= self.history@.len(),
                m0 == self@,
                hists_model(out@) == keep_except(m0.history.take(i as int), id),
            decreases self.history@.len() - i,
        {
            proof {
                assert(m0.history.take(i + 1).drop_last() =~= m0.history.take(i as int));
                assert(m0.history.take(i + 1).last() == m0.history[i as int]);
            }
            if self.history[i].id != id {
                let c = clone_history(&self.history[i]);
                let ghost c_model = c@;
                let ghost prev_out = hists_model(out@);
                out.push(c);
                proof {
                    assert(c_model == m0.history[i as int]);
                    let lhs = hists_model(out@);
                    assert(out@.len() == prev_out.len() + 1);
                    assert(lhs[lhs.len() - 1] == c_model);
                    assert forall|a: int| 0 <= a < prev_out.len() implies lhs[a]
                        == prev_out[a] by {
                        assert(out@[a] == out@.subrange(0, out@.len() - 1)[a]);
                    }
                    assert(lhs =~= prev_out.push(c_model));
                }
            } else {
                proof {
                    assert(m0.history[i as int].id == id);
                }
            }
            i += 1;
        }
        proof {
            assert(m0.history.take(m0.history.len() as int) =~= m0.history);
        }
        self.history = out;
        proof {
            let m1 = self@;
            lemma_tables_transfer(m0, m1);
            lemma_keep_except_ok(m0.history, id, m0.next_history_id);
            assert(m1.history == keep_except(m0.history, id));
            assert(m1.history_ok());
            assert(m1.wf());
        }
    }

    /// Offers a whole batch of rows to the store, in order, and counts
    /// the fresh records, saturating at the counter's maximum.
    pub fn ingest_rows(&mut self, rows: &Vec<Vec<String>>, saved: &Vec<DataRecord>) -> (count: u32)
        requires
            old(self)@.wf(),
            saved_consistent(recs_model(saved@)),
        ensures
            final(self)@.wf(),
            final(self)@ == spec_ingest_rows(old(self)@, rows.deep_view(), recs_model(saved@)),
            count as int == cap_count(spec_added(old(self)@, rows.deep_view(), recs_model(saved@))),
    {
        let ghost m0 = self@;
        let ghost rows_model = rows.deep_view();
        let ghost saved_model = recs_model(saved@);
        let mut count: u32 = 0;
        let mut i: usize = 0;
        proof {
            assert(rows_model.take(0) =~~= Seq::<Seq<Seq<char>>>::empty());
        }
        while i < rows.len()
            invariant
                0 <= i <= rows@.len(),
                rows_model == rows.deep_view(),
                saved_model == recs_model(saved@),
                saved_consistent(saved_model),
                self@.wf(),
                self@ == spec_ingest_rows(m0, rows_model.take(i as int), saved_model),
                0 <= spec_added(m0, rows_model.take(i as int), saved_model),
                count as int == cap_count(spec_added(m0, rows_model.take(i as int), saved_model)),
            decreases rows@.len() - i,
        {
            proof {
                lemma_ingest_rows_step(m0, rows_model, saved_model, i as int);
                assert(rows_model[i as int] == rows@[i as int].deep_view());
            }
            let added = self.ingest_row(&rows[i], saved);
            if added {
                if count < u32::MAX {
                    count = count + 1;
                }
            }
            i += 1;
        }
        proof {
            assert(rows_model.take(rows_model.len() as int) =~~= rows_model);
        }
        count
    }
}


/// A batch of rows with its header row removed.
pub open spec fn tail_rows(rows: Seq<Seq<Seq<char>>>) -> Seq<Seq<Seq<char>>> {
    if rows.len() == 0 {
        rows
    } else {
        rows.skip(1)
    }
}

impl Store {
    /// Offers every row after the header row to the store.
    fn ingest_sheet_rows(&mut self, rows: &Vec<Vec<String>>, saved: &Vec<DataRecord>) -> (count:
        u32)
        requires
            old(self)@.wf(),
            saved_consistent(recs_model(saved@)),
        ensures
            final(self)@.wf(),
            final(self)@ == spec_ingest_rows(
                old(self)@,
                tail_rows(rows.deep_view()),
                recs_model(saved@),
            ),
            count as int == cap_count(spec_added(
                old(self)@,
                tail_rows(rows.deep_view()),
                recs_model(saved@),
            )),
    {
        let ghost rows_model = rows.deep_view();
        let mut tail: Vec<Vec<String>> = Vec::new();
        if rows.len() == 0 {
            proof {
                assert(tail.deep_view() =~~= tail_rows(rows_model));
            }
            return self.ingest_rows(&tail, saved);
        }
        let mut i: usize = 1;
        while i < rows.len()
            invariant
                1 <= i <= rows@.len(),
                rows_model == rows.deep_view(),
                tail.deep_view() == rows_model.skip(1).take(i - 1),
            decreases rows@.len() - i,
        {
            let row = clone_string_vec(&rows[i]);
            let ghost row_view = row.deep_view();
            proof {
                assert(row_view == rows_model[i as int]);
                assert(rows_model.skip(1)[i - 1] == rows_model[i as int]);
            }
            let ghost prev_tail = tail.deep_view();
            tail.push(row);
            proof {
                let lhs = tail.deep_view();
                assert(tail@.len() == prev_tail.len() + 1);
                assert(lhs[lhs.len() - 1] == row_view);
                assert forall|k: int| 0 <= k < prev_tail.len() implies lhs[k]
                    == prev_tail[k] by {
                    assert(tail@[k] == tail@.subrange(0, tail@.len() - 1)[k]);
                }
                assert(lhs =~~= rows_model.skip(1).take(i as int));
            }
            i += 1;
        }
        proof {
            assert(rows_model.skip(1).take(rows_model.skip(1).len() as int) =~~= rows_model.skip(
                1,
            ));
            assert(tail.deep_view() == tail_rows(rows_model));
        }
        self.ingest_rows(&tail, saved)
    }

    /// Ingests one delimited-text file given as raw bytes: decodes the
    /// bytes through the encoding cascade, parses the header-skipped
    /// rows, and offers each to the store.  Reports how many records
    /// the file added.
    pub fn ingest_delimited(&mut self, bytes: &Vec<u8>, saved: &Vec<DataRecord>) -> (count: u32)
        requires
            old(self)@.wf(),
            saved_consistent(recs_model(saved@)),
        ensures
            final(self)@.wf(),
            final(self)@ == spec_ingest_rows(
                old(self)@,
                crate::text::spec_parse_delimited(crate::codec::spec_decode(bytes@)),
                recs_model(saved@),
            ),
            count as int == cap_count(spec_added(
                old(self)@,
                crate::text::spec_parse_delimited(crate::codec::spec_decode(bytes@)),
                recs_model(saved@),
            )),
    {
        let text = crate::codec::decode_text(bytes);
        let rows = crate::text::parse_delimited(&text);
        self.ingest_rows(&rows, saved)
    }

    /// Ingests one zipped-XML spreadsheet given as raw bytes: reads the
    /// first sheet, skips its header row, and offers the rows to the
    /// store.  `None` when the container cannot be opened; then nothing
    /// changes.
    pub fn ingest_xlsx(&mut self, bytes: &Vec<u8>, saved: &Vec<DataRecord>) -> (r: Option<u32>)
        requires
            old(self)@.wf(),
            saved_consistent(recs_model(saved@)),
        ensures
            final(self)@.wf(),
            (r is Some) == (crate::sheet::xlsx_rows_of(bytes@) is Some),
            r is None ==> final(self)@ == old(self)@,
            r matches Option::Some(count) ==> (crate::sheet::xlsx_rows_of(bytes@) matches
                Option::Some(rows) && final(self)@ == spec_ingest_rows(
                old(self)@,
                tail_rows(rows),
                recs_model(saved@),
            ) && count as int == cap_count(spec_added(old(self)@, tail_rows(rows), recs_model(saved@)))),
    {
        match crate::sheet::read_xlsx(bytes) {
            Option::Some(rows) => Option::Some(self.ingest_sheet_rows(&rows, saved)),
            Option::None => Option::None,
        }
    }

    /// Ingests one binary spreadsheet given as raw bytes, exactly as
    /// the zipped-XML variant.
    pub fn ingest_xls(&mut self, bytes: &Vec<u8>, saved: &Vec<DataRecord>) -> (r: Option<u32>)
        requires
            old(self)@.wf(),
            saved_consistent(recs_model(saved@)),
        ensures
            final(self)@.wf(),
            (r is Some) == (crate::sheet::xls_rows_of(bytes@) is Some),
            r is None ==> final(self)@ == old(self)@,
            r matches Option::Some(count) ==> (crate::sheet::xls_rows_of(bytes@) matches
                Option::Some(rows) && final(self)@ == spec_ingest_rows(
                old(self)@,
                tail_rows(rows),
                recs_model(saved@),
            ) && count as int == cap_count(spec_added(old(self)@, tail_rows(rows), recs_model(saved@)))),
    {
        match crate::sheet::read_xls(bytes) {
            Option::Some(rows) => Option::Some(self.ingest_sheet_rows(&rows, saved)),
            Option::None => Option::None,
        }
    }
}

/// Wraps up a folder load: with no readable data file the load fails,
/// otherwise the counts and the skipped-file notes are reported.
pub fn finish_load(file_count: u32, record_count: u32, skipped_files: Vec<String>) -> (r: Result<
    LoadResult,
    String,
>)
    ensures
        file_count == 0 ==> (r matches Result::Err(e) && e@ == "no valid data files"@),
        file_count > 0 ==> (r matches Result::Ok(l) && l.file_count == file_count
            && l.record_count == record_count && l.skipped_files == skipped_files),
{
    if file_count == 0 {
        Result::Err(String::from_str("no valid data files"))
    } else {
        Result::Ok(LoadResult { file_count, record_count, skipped_files })
    }
}

} // verus!





