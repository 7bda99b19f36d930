//! Row-level binlog: what a committed transaction holds and how it is stored.
//!
//! One-way server to device replication, after the manner of the MySQL binlog:
//! - INSERT events carry the full after-image (all columns).
//! - UPDATE events carry only the after-image.
//! - DELETE events carry only the primary key values.
//!
//! Storage: append-only segment files named `{lsn_of_first_record:010}.seg`.
//! Each record is `[varint length][Transaction message]`. LSNs are assigned in
//! commit order, one per committed transaction that changed something.

use crate::binlog::codec::tx_bytes;
use crate::binlog::segment::{
    log_txs, lsn_to_name, name_to_lsn, named_lsn, next_is_first, record, scan, scan_segment,
    segment_name, segment_txs, BinlogError, BinlogIter, Reader, Scan, Step,
};
use crate::model::{copy_texts, group_views, views};
use crate::wire::put_varint;
use vstd::prelude::*;

pub mod codec;
pub mod history;
pub mod segment;
pub mod value;

verus! {

/// A SQL value; one that no client sets is absent.
#[derive(Debug, PartialEq, Eq)]
pub struct Value {
    pub value: Option<value::Value>,
}

impl View for Value {
    type V = Option<value::Scalar>;

    open spec fn view(&self) -> Option<value::Scalar> {
        match self.value {
            Some(v) => Some(v@),
            None => None,
        }
    }
}

impl Clone for Value {
    fn clone(&self) -> (r: Self)
        ensures
            r@ == self@,
    {
        match &self.value {
            Some(v) => Value { value: Some(v.clone()) },
            None => Value { value: None },
        }
    }
}

/// Copies a vector of values.
pub fn copy_values(v: &Vec<Value>) -> (r: Vec<Value>)
    ensures
        views(r@) == views(v@),
{
    let mut r: Vec<Value> = Vec::new();
    let mut i: usize = 0;
    while i < v.len()
        invariant
            i <= v@.len(),
            r@.len() == i,
            forall|k: int| 0 <= k < i ==> (#[trigger] r@[k])@ == v@[k]@,
        decreases v@.len() - i,
    {
        r.push(v[i].clone());
        i = i + 1;
    }
    assert(views(r@) =~= views(v@));
    r
}

impl Value {
    /// Whether two values are the same.
    pub fn same(&self, other: &Value) -> (r: bool)
        ensures
            r == (self@ == other@),
    {
        match (&self.value, &other.value) {
            (Some(a), Some(b)) => a.same(b),
            (None, None) => true,
            _ => false,
        }
    }

    pub fn null() -> (r: Self)
        ensures
            r@ == Some(value::Scalar::Null),
    {
        Value { value: Some(value::Value::Null(value::Empty {  })) }
    }

    pub fn integer(v: i64) -> (r: Self)
        ensures
            r@ == Some(value::Scalar::Integer(v)),
    {
        Value { value: Some(value::Value::Integer(v)) }
    }

    /// A double, given by its IEEE 754 bits.
    pub fn float(bits: u64) -> (r: Self)
        ensures
            r@ == Some(value::Scalar::Float(bits)),
    {
        Value { value: Some(value::Value::Float(bits)) }
    }

    pub fn text(v: &str) -> (r: Self)
        ensures
            r@ == Some(value::Scalar::Text(v@)),
    {
        Value { value: Some(value::Value::Text(v.to_owned())) }
    }

    pub fn blob(v: Vec<u8>) -> (r: Self)
        ensures
            r@ == Some(value::Scalar::Blob(v@)),
    {
        Value { value: Some(value::Value::Blob(v)) }
    }

    /// A text that is not UTF-8, given by its bytes.
    pub fn raw_text(v: Vec<u8>) -> (r: Self)
        ensures
            r@ == Some(value::Scalar::RawText(v@)),
    {
        Value { value: Some(value::Value::RawText(v)) }
    }
}

/// Row mutation kind.
#[derive(Clone, Copy, Debug, PartialEq, Eq, Structural)]
pub enum Op {
    Insert,
    Update,
    Delete,
}

impl Op {
    /// The number that stands for the kind in a stored event.
    pub open spec fn number(self) -> i32 {
        match self {
            Op::Insert => 0,
            Op::Update => 1,
            Op::Delete => 2,
        }
    }

    pub fn to_i32(self) -> (r: i32)
        ensures
            r == self.number(),
    {
        match self {
            Op::Insert => 0,
            Op::Update => 1,
            Op::Delete => 2,
        }
    }

    /// The kind that a stored number stands for.
    pub fn from_i32(v: i32) -> (r: Option<Op>)
        ensures
            match r {
                Some(op) => op.number() == v,
                None => forall|op: Op| op.number() != v,
            },
    {
        match v {
            0 => Some(Op::Insert),
            1 => Some(Op::Update),
            2 => Some(Op::Delete),
            _ => None,
        }
    }
}

/// One changed row.
#[derive(Debug, PartialEq, Eq)]
pub struct RowEvent {
    pub table: String,
    pub op: i32,
    /// Column names that identify the row (declared PK, or `["rowid"]` for
    /// rowid tables without a declared PK).
    pub pk_columns: Vec<String>,
    /// PK values, one per `pk_columns` entry (DELETE events only need these).
    pub pk_values: Vec<Value>,
    /// Column names of the after-image (INSERT/UPDATE). Omitted for DELETE.
    pub columns: Vec<String>,
    /// After-image values, aligned with `columns`. Omitted for DELETE.
    pub values: Vec<Value>,
}

/// One changed row, mathematically.
#[verifier::ext_equal]
pub struct Row {
    pub table: Seq<char>,
    pub op: i32,
    pub pk_columns: Seq<Seq<char>>,
    pub pk_values: Seq<Option<value::Scalar>>,
    pub columns: Seq<Seq<char>>,
    pub values: Seq<Option<value::Scalar>>,
}

impl View for RowEvent {
    type V = Row;

    open spec fn view(&self) -> Row {
        Row {
            table: self.table@,
            op: self.op,
            pk_columns: views(self.pk_columns@),
            pk_values: views(self.pk_values@),
            columns: views(self.columns@),
            values: views(self.values@),
        }
    }
}

/// Schema change: verbatim SQL statements, to be replayed as-is by the applier.
#[derive(Debug, PartialEq, Eq)]
pub struct DdlEvent {
    pub statements: Vec<String>,
}

impl View for DdlEvent {
    type V = Seq<Seq<char>>;

    open spec fn view(&self) -> Seq<Seq<char>> {
        views(self.statements@)
    }
}

/// One committed transaction.
#[derive(Debug, PartialEq, Eq)]
pub struct Transaction {
    pub lsn: u64,
    pub commit_ts_ms: i64,
    pub rows: Vec<RowEvent>,
    pub ddl: Vec<DdlEvent>,
}

/// One committed transaction, mathematically.
#[verifier::ext_equal]
pub struct Tx {
    pub lsn: u64,
    pub commit_ts_ms: i64,
    pub rows: Seq<Row>,
    pub ddl: Seq<Seq<Seq<char>>>,
}

impl View for Transaction {
    type V = Tx;

    open spec fn view(&self) -> Tx {
        Tx {
            lsn: self.lsn,
            commit_ts_ms: self.commit_ts_ms,
            rows: views(self.rows@),
            ddl: views(self.ddl@),
        }
    }
}

// ---------------------------------------------------------------------------
// Segment storage
// ---------------------------------------------------------------------------

/// Puts a segment behind those that start no later.
pub open spec fn insert_segment(sorted: Seq<(u64, u64)>, x: (u64, u64)) -> Seq<(u64, u64)>
    decreases sorted.len(),
{
    if sorted.len() > 0 && sorted.last().0 > x.0 {
        insert_segment(sorted.drop_last(), x).push(sorted.last())
    } else {
        sorted.push(x)
    }
}

/// The segments among a directory's entries (name and size), by their first
/// LSN.
pub open spec fn segments_of(entries: Seq<(Seq<char>, u64)>) -> Seq<(u64, u64)>
    decreases entries.len(),
{
    if entries.len() == 0 {
        seq![]
    } else {
        let before = segments_of(entries.drop_last());
        match named_lsn(entries.last().0) {
            Some(lsn) => insert_segment(before, (lsn as u64, entries.last().1)),
            None => before,
        }
    }
}

pub open spec fn entry_views(entries: Seq<(String, u64)>) -> Seq<(Seq<char>, u64)> {
    entries.map_values(|e: (String, u64)| (e.0@, e.1))
}

pub open spec fn by_start(segments: Seq<(u64, u64)>) -> bool {
    forall|i: int, j: int| 0 <= i <= j < segments.len() ==> segments[i].0 <= segments[j].0
}

proof fn insert_segment_at(sorted: Seq<(u64, u64)>, x: (u64, u64), n: int)
    requires
        0 <= n <= sorted.len(),
        n > 0 ==> sorted[n - 1].0 <= x.0,
        forall|i: int| n <= i < sorted.len() ==> (#[trigger] sorted[i]).0 > x.0,
    ensures
        insert_segment(sorted, x) == sorted.insert(n, x),
    decreases sorted.len(),
{
    if n < sorted.len() {
        insert_segment_at(sorted.drop_last(), x, n);
        assert(sorted.drop_last().insert(n, x).push(sorted.last()) =~= sorted.insert(n, x));
    } else {
        assert(sorted.push(x) =~= sorted.insert(n, x));
    }
}

/// The segments among a directory's entries, by their first LSN; entries that
/// are none are left out.
pub fn list_segments(entries: &Vec<(String, u64)>) -> (r: Vec<(u64, u64)>)
    ensures
        r@ == segments_of(entry_views(entries@)),
        by_start(r@),
{
    let ghost all = entry_views(entries@);
    let mut r: Vec<(u64, u64)> = Vec::new();
    let mut i: usize = 0;
    assert(all.take(0) =~= seq![]);
    while i < entries.len()
        invariant
            i <= entries@.len(),
            all == entry_views(entries@),
            r@ == segments_of(all.take(i as int)),
            by_start(r@),
        decreases entries@.len() - i,
    {
        proof {
            assert(all.take(i + 1).drop_last() =~= all.take(i as int));
            assert(all.take(i + 1).last() == (entries@[i as int].0@, entries@[i as int].1));
        }
        if let Some(lsn) = name_to_lsn(entries[i].0.as_str()) {
            let mut n: usize = r.len();
            while n > 0 && r[n - 1].0 > lsn
                invariant
                    n <= r@.len(),
                    forall|k: int| n <= k < r@.len() ==> (#[trigger] r@[k]).0 > lsn,
                decreases n,
            {
                n = n - 1;
            }
            proof {
                insert_segment_at(r@, (lsn, entries@[i as int].1), n as int);
            }
            let ghost before = r@;
            r.insert(n, (lsn, entries[i].1));
            assert(by_start(r@)) by {
                assert forall|a: int, b: int| 0 <= a <= b < r@.len() implies r@[a].0 <= r@[b].0 by {
                    if a < n && b == n {
                        assert(before[a].0 <= before[n - 1].0);
                    }
                }
            }
        }
        i = i + 1;
    }
    assert(all.take(i as int) =~= all);
    r
}

/// Recovery of a log from its segments, one after the other.
pub struct Recovery {
    segments: Vec<(u64, u64)>,
    scanned: usize,
    current_lsn: u64,
}

/// How far a recovery has come.
#[verifier::ext_equal]
pub struct Recovered {
    /// First LSN and size of each segment; of those scanned, what is kept.
    pub segments: Seq<(u64, u64)>,
    pub scanned: nat,
    pub current_lsn: u64,
}

impl Recovered {
    /// What the next segment's bytes lead to: how far the recovery has then
    /// come, and the size to cut the file to where a partly written record ends
    /// it.
    pub open spec fn scanning(self, bytes: Seq<u8>) -> Result<
        (Recovered, Option<nat>),
        BinlogError,
    > {
        match scan(bytes, self.current_lsn, 0) {
            Scan::Read(lsn, consumed, torn) => {
                let n = self.scanned as int;
                let size = if torn {
                    consumed
                } else {
                    bytes.len()
                };
                Ok(
                    (
                        Recovered {
                            segments: self.segments.update(n, (self.segments[n].0, size as u64)),
                            scanned: (n + 1) as nat,
                            current_lsn: lsn,
                        },
                        if torn {
                            Some(consumed)
                        } else {
                            None
                        },
                    ),
                )
            },
            Scan::Refused(e) => Err(e),
        }
    }
}

impl View for Recovery {
    type V = Recovered;

    closed spec fn view(&self) -> Recovered {
        Recovered {
            segments: self.segments@,
            scanned: self.scanned as nat,
            current_lsn: self.current_lsn,
        }
    }
}

impl Recovery {
    pub fn new(segments: Vec<(u64, u64)>) -> (r: Self)
        ensures
            r@ == (Recovered { segments: segments@, scanned: 0, current_lsn: 0 }),
    {
        Recovery { segments, scanned: 0, current_lsn: 0 }
    }

    /// The first LSN of the segment to scan next.
    pub fn pending(&self) -> (r: Option<u64>)
        ensures
            r == if self@.scanned < self@.segments.len() {
                Some(self@.segments[self@.scanned as int].0)
            } else {
                None
            },
    {
        if self.scanned < self.segments.len() {
            Some(self.segments[self.scanned].0)
        } else {
            None
        }
    }

    /// Takes in the bytes of the segment to scan next. Where a partly written
    /// record ends it, the result is the size to cut the file to, so that the
    /// log is always readable.
    pub fn scan_state(&mut self, bytes: &[u8]) -> (r: Result<Option<u64>, BinlogError>)
        requires
            old(self)@.scanned < old(self)@.segments.len(),
        ensures
            match old(self)@.scanning(bytes@) {
                Ok((next, cut)) => {
                    &&& r == Ok::<_, BinlogError>(
                        match cut {
                            Some(size) => Some(size as u64),
                            None => None,
                        },
                    )
                    &&& cut matches Some(size) ==> size <= bytes@.len()
                    &&& final(self)@ == next
                },
                Err(e) => r == Err::<Option<u64>, _>(e) && final(self)@ == old(self)@,
            },
            scan(bytes@, old(self)@.current_lsn, 0) matches Scan::Read(_, consumed, _) ==> consumed
                <= bytes@.len(),
    {
        match scan_segment(bytes, self.current_lsn) {
            Err(e) => Err(e),
            Ok(found) => {
                let start: u64 = self.segments[self.scanned].0;
                let size: u64 = if found.torn {
                    found.consumed as u64
                } else {
                    bytes.len() as u64
                };
                let known: usize = self.segments.len();
                self.segments.set(self.scanned, (start, size));
                assert(self.scanned < known);
                self.scanned = self.scanned + 1;
                self.current_lsn = found.lsn;
                if found.torn {
                    Ok(Some(size))
                } else {
                    Ok(None)
                }
            },
        }
    }
}

/// Append-only binlog storage for one namespace: which segments there are and
/// which LSN comes next. The files themselves are read and written by the
/// caller, who reports what came of it.
pub struct Binlog {
    /// LSN of the last record written (0 if empty).
    current_lsn: u64,
    /// LSN of the first record in the oldest retained segment.
    min_lsn: u64,
    max_segment_bytes: u64,
    max_total_bytes: u64,
    /// First LSN and size of each known segment.
    segments: Vec<(u64, u64)>,
    /// Bytes in the last segment, while it is open for appending.
    open: Option<u64>,
}

/// The state of a log.
#[verifier::ext_equal]
pub struct Log {
    pub current_lsn: u64,
    pub min_lsn: u64,
    pub max_segment_bytes: u64,
    pub max_total_bytes: u64,
    pub segments: Seq<(u64, u64)>,
    pub open: Option<u64>,
}

impl View for Binlog {
    type V = Log;

    closed spec fn view(&self) -> Log {
        Log {
            current_lsn: self.current_lsn,
            min_lsn: self.min_lsn,
            max_segment_bytes: self.max_segment_bytes,
            max_total_bytes: self.max_total_bytes,
            segments: self.segments@,
            open: self.open,
        }
    }
}

/// What appending a transaction asks of the caller.
pub enum Append {
    /// Nothing: the transaction changed nothing. The current LSN stands.
    Unchanged(u64),
    /// To write that record, in a new segment where `rotate` says so.
    Write { lsn: u64, rotate: bool, record: Vec<u8> },
}

/// The transaction with the LSN it is stored under.
pub open spec fn with_lsn(tx: Tx, lsn: u64) -> Tx {
    Tx { lsn, ..tx }
}

/// The total size of segments.
pub open spec fn total_size(segments: Seq<(u64, u64)>) -> nat
    decreases segments.len(),
{
    if segments.len() == 0 {
        0
    } else {
        total_size(segments.drop_last()) + segments.last().1 as nat
    }
}

impl Log {
    /// What appending a transaction takes, if it changed anything: its LSN,
    /// whether its record goes into a new segment, and the record.
    pub open spec fn appending(self, tx: Tx) -> Option<(u64, bool, Seq<u8>)> {
        if tx.rows.len() == 0 && tx.ddl.len() == 0 {
            None
        } else {
            let lsn = (self.current_lsn + 1) as u64;
            let stored = with_lsn(tx, lsn);
            Some((lsn, self.rotates(tx_bytes(stored).len()), record(stored)))
        }
    }

    /// The log whose segments a recovery found.
    pub open spec fn recovered(
        found: Recovered,
        max_segment_bytes: u64,
        max_total_bytes: u64,
    ) -> Log {
        Log {
            current_lsn: found.current_lsn,
            min_lsn: if found.segments.len() > 0 {
                found.segments[0].0
            } else {
                0
            },
            max_segment_bytes,
            max_total_bytes,
            segments: found.segments,
            open: None,
        }
    }

    /// Whether a record of that content goes into a new segment.
    pub open spec fn rotates(self, body: nat) -> bool {
        match self.open {
            None => true,
            Some(size) => size + body + 16 > self.max_segment_bytes,
        }
    }

    /// The open segment is closed, and its size kept.
    pub open spec fn closed(self) -> Log {
        match self.open {
            Some(size) => Log {
                segments: self.segments.update(
                    self.segments.len() - 1,
                    (self.segments.last().0, size),
                ),
                open: None,
                ..self
            },
            None => self,
        }
    }

    /// A new segment, of `size` bytes, is open. One that is known already is
    /// not listed a second time.
    pub open spec fn rotated(self, size: u64) -> Log {
        let start = (self.current_lsn + 1) as u64;
        Log {
            segments: if self.segments.len() > 0 && self.segments.last().0 == start {
                self.segments
            } else {
                self.segments.push((start, 0))
            },
            open: Some(size),
            ..self
        }
    }

    /// The record of the next LSN, of `written` bytes, stands in the open
    /// segment.
    pub open spec fn committed(self, written: nat) -> Log {
        Log {
            current_lsn: (self.current_lsn + 1) as u64,
            open: match self.open {
                Some(size) => Some((size + written) as u64),
                None => None,
            },
            ..self
        }
    }

    /// Whether the oldest segment is to go.
    pub open spec fn over_limit(self) -> bool {
        total_size(self.segments) > self.max_total_bytes && self.segments.len() > 1
    }

    /// The oldest segment is off the list.
    pub open spec fn unlisted(self) -> Log {
        Log { segments: self.segments.drop_first(), ..self }
    }

    /// The oldest segment's file is gone.
    pub open spec fn removed(self) -> Log {
        Log {
            min_lsn: if self.segments.len() > 0 {
                self.segments[0].0
            } else {
                self.current_lsn
            },
            ..self
        }
    }
}

impl Binlog {
    /// Only a known segment is open.
    pub closed spec fn wf(&self) -> bool {
        self.open is Some ==> self.segments@.len() > 0
    }

    /// The log that a recovery of all its segments found.
    pub fn open(found: Recovery, max_segment_bytes: u64, max_total_bytes: u64) -> (r: Self)
        requires
            found@.scanned == found@.segments.len(),
        ensures
            r.wf(),
            r@ == Log::recovered(found@, max_segment_bytes, max_total_bytes),
    {
        let min_lsn: u64 = if found.segments.len() > 0 {
            found.segments[0].0
        } else {
            0
        };
        Binlog {
            current_lsn: found.current_lsn,
            min_lsn,
            max_segment_bytes,
            max_total_bytes,
            segments: found.segments,
            open: None,
        }
    }

    pub fn current_lsn(&self) -> (r: u64)
        ensures
            r == self@.current_lsn,
    {
        self.current_lsn
    }

    pub fn min_lsn(&self) -> (r: u64)
        ensures
            r == self@.min_lsn,
    {
        self.min_lsn
    }

    /// The names of the segments' files, oldest first.
    pub fn segment_names(&self) -> (r: Vec<String>)
        ensures
            views(r@) == self@.segments.map_values(|s: (u64, u64)| segment_name(s.0)),
    {
        let mut r: Vec<String> = Vec::new();
        let mut i: usize = 0;
        while i < self.segments.len()
            invariant
                i <= self.segments@.len(),
                r@.len() == i,
                forall|k: int| 0 <= k < i ==> (#[trigger] r@[k])@ == segment_name(self.segments@[k].0),
            decreases self.segments@.len() - i,
        {
            r.push(lsn_to_name(self.segments[i].0));
            i = i + 1;
        }
        assert(views(r@) =~= self@.segments.map_values(|s: (u64, u64)| segment_name(s.0)));
        r
    }

    /// What appending `tx` takes. A transaction without changes takes no LSN.
    pub fn append(&self, tx: Transaction) -> (r: Append)
        requires
            self@.current_lsn < u64::MAX,
        ensures
            match self@.appending(tx@) {
                None => r == Append::Unchanged(self@.current_lsn),
                Some((next, opens, bytes)) => r matches Append::Write { lsn, rotate, record: b }
                    && lsn == next && rotate == opens && b@ == bytes,
            },
    {
        if tx.rows.len() == 0 && tx.ddl.len() == 0 {
            return Append::Unchanged(self.current_lsn);
        }
        let lsn: u64 = self.current_lsn + 1;
        let mut stored: Transaction = tx;
        stored.lsn = lsn;
        assert(stored@ =~= with_lsn(tx@, lsn));
        let body = stored.encode_to_vec();
        let rotate: bool = match self.open {
            None => true,
            Some(size) => size as u128 + body.len() as u128 + 16 > self.max_segment_bytes as u128,
        };
        let mut bytes: Vec<u8> = Vec::new();
        put_varint(&mut bytes, body.len() as u64);
        bytes.extend_from_slice(body.as_slice());
        assert(bytes@ =~= record(stored@));
        Append::Write { lsn, rotate, record: bytes }
    }

    /// The name of the segment that a rotation opens.
    pub fn next_segment(&self) -> (r: String)
        requires
            self@.current_lsn < u64::MAX,
        ensures
            r@ == segment_name((self@.current_lsn + 1) as u64),
    {
        lsn_to_name(self.current_lsn + 1)
    }

    /// The open segment, if there is one, was closed.
    pub fn close_segment(&mut self)
        requires
            old(self).wf(),
        ensures
            final(self).wf(),
            final(self)@ == old(self)@.closed(),
    {
        if let Some(size) = self.open {
            let last: usize = self.segments.len() - 1;
            let start: u64 = self.segments[last].0;
            self.segments.set(last, (start, size));
            self.open = None;
        }
    }

    /// The segment of the next record was opened; it holds `size` bytes.
    pub fn rotate(&mut self, size: u64)
        requires
            old(self).wf(),
            old(self)@.current_lsn < u64::MAX,
        ensures
            final(self).wf(),
            final(self)@ == old(self)@.rotated(size),
    {
        let start: u64 = self.current_lsn + 1;
        let known: bool = self.segments.len() > 0 && self.segments[self.segments.len() - 1].0
            == start;
        if !known {
            self.segments.push((start, 0));
        }
        self.open = Some(size);
    }

    /// The record of the next LSN, of `written` bytes, was written to the open
    /// segment and synced.
    pub fn committed(&mut self, written: u64)
        requires
            old(self).wf(),
            old(self)@.current_lsn < u64::MAX,
            old(self)@.open matches Some(size) ==> size + written <= u64::MAX,
        ensures
            final(self).wf(),
            final(self)@ == old(self)@.committed(written as nat),
    {
        self.current_lsn = self.current_lsn + 1;
        if let Some(size) = self.open {
            self.open = Some(size + written);
        }
    }

    /// Writing a record failed; the open segment holds `size` bytes.
    pub fn write_failed(&mut self, size: u64)
        requires
            old(self).wf(),
        ensures
            final(self).wf(),
            final(self)@ == (Log {
                open: if old(self)@.open is Some {
                    Some(size)
                } else {
                    None
                },
                ..old(self)@
            }),
    {
        if self.open.is_some() {
            self.open = Some(size);
        }
    }

    /// Takes the oldest segment off the list where the segments together are
    /// over the limit and more than one is left. The caller removes its file.
    pub fn gc_next(&mut self) -> (r: Option<u64>)
        requires
            old(self).wf(),
        ensures
            final(self).wf(),
            old(self)@.over_limit() ==> r == Some(old(self)@.segments[0].0) && final(self)@ == old(
                self,
            )@.unlisted(),
            !old(self)@.over_limit() ==> r is None && final(self)@ == old(self)@,
    {
        let n: usize = self.segments.len();
        let mut total: u128 = 0;
        let mut i: usize = 0;
        assert(self.segments@.take(0) =~= seq![]);
        while i < n
            invariant
                i <= n == self.segments@.len(),
                total == total_size(self.segments@.take(i as int)),
                total <= i * u64::MAX,
            decreases n - i,
        {
            assert(self.segments@.take(i + 1).drop_last() =~= self.segments@.take(i as int));
            assert((i + 1) * u64::MAX == i * u64::MAX + u64::MAX) by (nonlinear_arith);
            assert((i + 1) * u64::MAX <= u64::MAX * u64::MAX) by (nonlinear_arith)
                requires
                    i + 1 <= u64::MAX,
            ;
            total = total + self.segments[i].1 as u128;
            i = i + 1;
        }
        assert(self.segments@.take(i as int) =~= self.segments@);
        if total <= self.max_total_bytes as u128 || n <= 1 {
            return None;
        }
        let (start, _) = self.segments.remove(0);
        assert(self.segments@ =~= old(self).segments@.drop_first());
        Some(start)
    }

    /// The file of the segment that was taken off the list is gone.
    pub fn gc_removed(&mut self)
        requires
            old(self).wf(),
        ensures
            final(self).wf(),
            final(self)@ == old(self)@.removed(),
    {
        self.min_lsn = if self.segments.len() > 0 {
            self.segments[0].0
        } else {
            self.current_lsn
        };
    }

    /// A reader of the transactions above `since`. It asks for the segments
    /// that are known now, oldest first.
    pub fn iter_since(&self, since: u64) -> (r: BinlogIter)
        ensures
            r.wf(),
            r@ == (Reader { left: self@.segments.len(), rest: seq![], since, failed: false }),
    {
        BinlogIter::new(self.segments.len(), since)
    }

    /// Reads all transactions above `since` from the bytes of the segments,
    /// oldest first. A caller has checked `since` against `min_lsn`.
    pub fn read_since(&self, files: &Vec<Vec<u8>>, since: u64) -> (r: Result<
        Vec<Transaction>,
        BinlogError,
    >)
        ensures
            match log_txs(views(files@), since) {
                Ok(txs) => r matches Ok(v) && views(v@) == txs,
                Err(e) => r == Err::<Vec<Transaction>, _>(e),
            },
    {
        read_files(files, since)
    }
}

fn read_files(files: &Vec<Vec<u8>>, since: u64) -> (r: Result<Vec<Transaction>, BinlogError>)
    ensures
        match log_txs(views(files@), since) {
            Ok(txs) => r matches Ok(v) && views(v@) == txs,
            Err(e) => r == Err::<Vec<Transaction>, _>(e),
        },
{
    broadcast use group_views;

    let ghost all = views(files@);
    let mut r: Vec<Transaction> = Vec::new();
    let mut i: usize = 0;
    assert(all.take(0) =~= seq![]);
    assert(views(r@) =~= seq![]);
    while i < files.len()
        invariant
            i <= files@.len(),
            all == views(files@),
            log_txs(all.take(i as int), since) == Ok::<Seq<Tx>, BinlogError>(views(r@)),
        decreases files@.len() - i,
    {
        let ghost before = views(r@);
        proof {
            assert(all.take(i + 1).drop_last() =~= all.take(i as int));
            assert(all.take(i + 1).last() == files@[i as int]@);
            log_txs_fails(all, since, i + 1);
        }
        let mut reader = BinlogIter::new(1, since);
        reader.feed(vstd::slice::slice_to_vec(files[i].as_slice()));
        assert(reader@.rest =~= files@[i as int]@);
        assert(views(r@) + Seq::<Tx>::empty() =~= before);
        loop
            invariant
                reader.wf(),
                reader@.left == 0,
                reader@.since == since,
                !reader@.failed,
                (match segment_txs(files@[i as int]@, since) {
                    Ok(txs) => Ok::<_, BinlogError>(before + txs),
                    Err(e) => Err(e),
                }) == (match segment_txs(reader@.rest, since) {
                    Ok(txs) => Ok::<_, BinlogError>(views(r@) + txs),
                    Err(e) => Err(e),
                }),
                i < files@.len(),
                all == views(files@),
                segment_txs(files@[i as int]@, since) matches Err(e) ==> log_txs(all, since) == Err::<
                    Seq<Tx>,
                    _,
                >(e),
            ensures
                segment_txs(files@[i as int]@, since) matches Ok(txs) && views(r@) == before + txs,
            decreases reader@.rest.len(),
        {
            let ghost rest = reader@.rest;
            let ghost sofar = views(r@);
            proof {
                next_is_first(rest, since);
            }
            match reader.next() {
                Step::Record(tx) => {
                    r.push(tx);
                    proof {
                        if let Ok(txs) = segment_txs(reader@.rest, since) {
                            assert(sofar + (seq![tx@] + txs) =~= views(r@) + txs);
                        }
                    }
                },
                Step::Failed(e) => {
                    return Err(e);
                },
                Step::Corrupt(_) => {
                    return Err(BinlogError::Corrupt);
                },
                Step::End => {
                    assert(views(r@) + Seq::<Tx>::empty() =~= views(r@));
                    break;
                },
                Step::Segment => {
                    break;
                },
            }
        }
        i = i + 1;
    }
    assert(all.take(i as int) =~= all);
    Ok(r)
}

proof fn log_txs_fails(files: Seq<Seq<u8>>, since: u64, n: int)
    requires
        0 <= n <= files.len(),
    ensures
        log_txs(files.take(n), since) matches Err(e) ==> log_txs(files, since) == Err::<
            Seq<Tx>,
            _,
        >(e),
    decreases files.len() - n,
{
    if n < files.len() {
        assert(files.take(n + 1).drop_last() =~= files.take(n));
        log_txs_fails(files, since, n + 1);
    } else {
        assert(files.take(n) =~= files);
    }
}

// ---------------------------------------------------------------------------
// Schema cache
// ---------------------------------------------------------------------------

/// A table: where it is stored, its columns, and which of them make up the
/// primary key or are generated.
#[derive(Debug, PartialEq, Eq)]
pub struct TableInfo {
    /// The page that the table's content starts at. It stays the same when the
    /// table is renamed or altered.
    pub root: i64,
    /// All columns, in order. A table that is not there has none.
    pub columns: Vec<String>,
    pub is_pk: Vec<bool>,
    /// Whether a column is computed from others, and so cannot be written.
    pub generated: Vec<bool>,
}

/// A table, mathematically.
#[verifier::ext_equal]
pub struct Table {
    pub root: i64,
    pub columns: Seq<Seq<char>>,
    pub is_pk: Seq<bool>,
    pub generated: Seq<bool>,
}

impl View for TableInfo {
    type V = Table;

    open spec fn view(&self) -> Table {
        Table {
            root: self.root,
            columns: views(self.columns@),
            is_pk: self.is_pk@,
            generated: self.generated@,
        }
    }
}

impl Clone for TableInfo {
    fn clone(&self) -> (r: Self)
        ensures
            r@ == self@,
    {
        TableInfo {
            root: self.root,
            columns: copy_texts(&self.columns),
            is_pk: copy_flags(&self.is_pk),
            generated: copy_flags(&self.generated),
        }
    }
}

struct CachedTable {
    table: String,
    info: TableInfo,
}

/// Column metadata cache used by the capture layer: maps a table to its column
/// names, PK membership and place, for one schema version.
pub struct SchemaCache {
    /// No table is listed twice.
    entries: Vec<CachedTable>,
    schema_version: i64,
}

/// The tables that are known under a schema version.
#[verifier::ext_equal]
pub struct Schemas {
    pub version: i64,
    pub tables: Map<Seq<char>, Table>,
}

impl Schemas {
    /// A table was looked up.
    pub open spec fn with_table(self, name: Seq<char>, table: Table) -> Schemas {
        Schemas { tables: self.tables.insert(name, table), ..self }
    }

    /// The cache once the schema is known to have that version: what was known
    /// under another is dropped.
    pub open spec fn refreshed(self, version: i64) -> Schemas {
        if version == self.version {
            self
        } else {
            Schemas { version, tables: Map::empty() }
        }
    }
}

spec fn tables_of(entries: Seq<CachedTable>) -> Map<Seq<char>, Table>
    decreases entries.len(),
{
    if entries.len() == 0 {
        Map::empty()
    } else {
        let last = entries.last();
        tables_of(entries.drop_last()).insert(last.table@, last.info@)
    }
}

spec fn listed_once(entries: Seq<CachedTable>) -> bool {
    forall|i: int, j: int|
        0 <= i < j < entries.len() ==> (#[trigger] entries[i]).table@ != (
        #[trigger] entries[j]).table@
}

proof fn tables_of_holds(entries: Seq<CachedTable>)
    requires
        listed_once(entries),
    ensures
        forall|i: int|
            0 <= i < entries.len() ==> tables_of(entries).contains_key(
                (#[trigger] entries[i]).table@,
            ) && tables_of(entries)[entries[i].table@] == entries[i].info@,
        forall|t: Seq<char>|
            tables_of(entries).contains_key(t) ==> exists|i: int|
                0 <= i < entries.len() && (#[trigger] entries[i]).table@ == t,
    decreases entries.len(),
{
    if entries.len() > 0 {
        let before = entries.drop_last();
        tables_of_holds(before);
        assert forall|i: int| 0 <= i < entries.len() implies tables_of(entries).contains_key(
            (#[trigger] entries[i]).table@,
        ) && tables_of(entries)[entries[i].table@] == entries[i].info@ by {
            if i < before.len() {
                assert(before[i] == entries[i]);
                assert(entries[i].table@ != entries[entries.len() - 1].table@);
            }
        }
        assert forall|t: Seq<char>| tables_of(entries).contains_key(t) implies exists|i: int|
            0 <= i < entries.len() && (#[trigger] entries[i]).table@ == t by {
            if t == entries.last().table@ {
                assert(entries[entries.len() - 1].table@ == t);
            } else {
                assert(tables_of(before).contains_key(t));
                let i = choose|i: int| 0 <= i < before.len() && (#[trigger] before[i]).table@ == t;
                assert(before[i].table@ == t && before[i] == entries[i]);
            }
        }
    }
}

impl View for SchemaCache {
    type V = Schemas;

    closed spec fn view(&self) -> Schemas {
        Schemas { version: self.schema_version, tables: tables_of(self.entries@) }
    }
}

impl SchemaCache {
    pub closed spec fn wf(&self) -> bool {
        listed_once(self.entries@)
    }

    pub fn with_schema_version(schema_version: i64) -> (r: Self)
        ensures
            r.wf(),
            r@ == (Schemas { version: schema_version, tables: Map::empty() }),
    {
        SchemaCache { entries: Vec::new(), schema_version }
    }

    /// Drops cached schemas when the schema version changed.
    pub fn refresh(&mut self, schema_version: i64)
        requires
            old(self).wf(),
        ensures
            final(self).wf(),
            final(self)@ == old(self)@.refreshed(schema_version),
    {
        if schema_version != self.schema_version {
            self.entries.clear();
            self.schema_version = schema_version;
        }
    }

    /// Where a table is listed.
    fn position(&self, table: &str) -> (r: Option<usize>)
        requires
            self.wf(),
        ensures
            match r {
                Some(i) => i < self.entries@.len() && self.entries@[i as int].table@ == table@
                    && self@.tables.contains_key(table@) && self@.tables[table@]
                    == self.entries@[i as int].info@,
                None => !self@.tables.contains_key(table@) && forall|i: int|
                    0 <= i < self.entries@.len() ==> (#[trigger] self.entries@[i]).table@
                        != table@,
            },
    {
        let mut i: usize = 0;
        while i < self.entries.len()
            invariant
                i <= self.entries@.len(),
                self.wf(),
                forall|k: int| 0 <= k < i ==> (#[trigger] self.entries@[k]).table@ != table@,
            decreases self.entries@.len() - i,
        {
            if crate::text::same_text(self.entries[i].table.as_str(), table) {
                proof {
                    tables_of_holds(self.entries@);
                }
                return Some(i);
            }
            i = i + 1;
        }
        proof {
            tables_of_holds(self.entries@);
        }
        None
    }

    /// Drops all cached schemas, as after a rollback a schema version can come
    /// again with another schema.
    pub fn clear(&mut self)
        ensures
            final(self).wf(),
            final(self)@ == (Schemas { tables: Map::empty(), ..old(self)@ }),
    {
        self.entries.clear();
    }

    /// What is known of a table, under the cache's schema version.
    pub fn lookup(&self, table: &str) -> (r: Option<&TableInfo>)
        requires
            self.wf(),
        ensures
            match r {
                Some(info) => self@.tables.contains_key(table@) && info@ == self@.tables[table@],
                None => !self@.tables.contains_key(table@),
            },
    {
        match self.position(table) {
            Some(i) => Some(&self.entries[i].info),
            None => None,
        }
    }

    /// A table's columns and PK membership, fetched where they are not known
    /// under that schema version.
    pub fn get<F: FnOnce(&str) -> TableInfo>(
        &mut self,
        schema_version: i64,
        table: &str,
        fetch: F,
    ) -> (r: TableInfo)
        requires
            old(self).wf(),
            fetch.requires((table,)),
        ensures
            final(self).wf(),
            ({
                let before = old(self)@.refreshed(schema_version);
                if before.tables.contains_key(table@) {
                    &&& r@ == before.tables[table@]
                    &&& final(self)@ == before
                } else {
                    &&& fetch.ensures((table,), r)
                    &&& final(self)@ == before.with_table(table@, r@)
                }
            }),
    {
        self.refresh(schema_version);
        if let Some(i) = self.position(table) {
            return self.entries[i].info.clone();
        }
        let info = fetch(table);
        let entry = CachedTable { table: table.to_owned(), info: info.clone() };
        let ghost before = self.entries@;
        self.entries.push(entry);
        assert(self.entries@.drop_last() =~= before);
        info
    }
}

fn copy_flags(v: &Vec<bool>) -> (r: Vec<bool>)
    ensures
        r@ == v@,
{
    vstd::slice::slice_to_vec(v.as_slice())
}

} // verus!
