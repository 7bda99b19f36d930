//! Row-change capture: what SQLite's hooks report is buffered per transaction
//! and turned into events once it has committed.
//!
//! Captured data model:
//! - INSERT: full after-image (all columns).
//! - UPDATE: full after-image; a row whose key changes is a DELETE and an INSERT.
//! - DELETE: primary key values only.
//!
//! The hooks only do cheap in-memory work. Column and key metadata is resolved
//! right after the statement that changed the rows, using a schema cache that
//! is invalidated when `PRAGMA schema_version` changes. What later statements
//! of the transaction make of a table is noted beside its rows.

use crate::binlog::value::Scalar;
use crate::binlog::{
    value, DdlEvent, Op, Row, RowEvent, SchemaCache, Schemas, Table, TableInfo, Transaction, Tx,
    Value,
};
use crate::change::{
    all_events, all_fit, all_shaped, collect_events, events_are_well_formed, fits, is_shaped,
    renamed_view, row_fits, shaped, Move, Renamed, TableMove,
};
use crate::executor::Cell;
use crate::model::{group_views, views};
use crate::sql::{
    after_name, after_word, decimals, first_name, first_word, read_name, read_word, renderable,
};
use crate::text::{chars_of, decimal, push_decimal, push_signed, same_text, signed_decimal};
use crate::wire::utf8_text;
use std::collections::HashMap;
use vstd::prelude::*;
use vstd::utf8::{decode_utf8, encode_utf8, valid_utf8};

verus! {

broadcast use {group_views, vstd::std_specs::hash::group_hash_axioms};

// ---------------------------------------------------------------------------
// Statements
// ---------------------------------------------------------------------------

/// Whether the statement only controls transactions or the connection.
pub open spec fn controls_txn(sql: Seq<char>) -> bool {
    let word = first_word(sql);
    ||| word == "BEGIN"@
    ||| word == "COMMIT"@
    ||| word == "END"@
    ||| word == "ROLLBACK"@
    ||| word == "SAVEPOINT"@
    ||| word == "RELEASE"@
    ||| word == "PRAGMA"@
}

/// Whether the statement only reads or changes rows.
pub open spec fn only_rows(sql: Seq<char>) -> bool {
    let word = first_word(sql);
    ||| word == "SELECT"@
    ||| word == "INSERT"@
    ||| word == "UPDATE"@
    ||| word == "DELETE"@
    ||| word == "REPLACE"@
    ||| word == "WITH"@
    ||| word == "VALUES"@
    ||| word == "EXPLAIN"@
}

/// What a statement does to savepoints, which are named in upper case.
#[verifier::ext_equal]
pub enum Nesting {
    Nothing,
    /// `SAVEPOINT name`.
    Open(Seq<char>),
    /// `RELEASE [SAVEPOINT] name`.
    Close(Seq<char>),
    /// `ROLLBACK [TRANSACTION [name]] TO [SAVEPOINT] name`.
    Back(Seq<char>),
}

/// What follows `word`, where `s` starts with it; else `s`.
pub open spec fn after_optional(s: Seq<char>, word: Seq<char>) -> Seq<char> {
    if first_word(s) == word {
        after_word(s)
    } else {
        s
    }
}

/// What stands before `TO` in a rollback is passed over.
pub open spec fn after_transaction(s: Seq<char>) -> Seq<char> {
    let rest = after_optional(s, "TRANSACTION"@);
    if first_word(s) == "TRANSACTION"@ && first_word(rest) != "TO"@ {
        after_name(rest)
    } else {
        rest
    }
}

/// What the statement does to savepoints.
pub open spec fn nesting(sql: Seq<char>) -> Nesting {
    let word = first_word(sql);
    let rest = after_word(sql);
    if word == "SAVEPOINT"@ {
        Nesting::Open(first_name(rest))
    } else if word == "RELEASE"@ {
        Nesting::Close(first_name(after_optional(rest, "SAVEPOINT"@)))
    } else if word == "ROLLBACK"@ && first_word(after_transaction(rest)) == "TO"@ {
        let target = after_word(after_transaction(rest));
        Nesting::Back(first_name(after_optional(target, "SAVEPOINT"@)))
    } else {
        Nesting::Nothing
    }
}

/// Transaction-control statements that must not be replayed verbatim on the
/// replica (the applier manages transactions itself).
pub fn is_txn_control(sql: &str) -> (r: bool)
    ensures
        r == controls_txn(sql@),
{
    let chars = chars_of(sql);
    assert(chars@.skip(0) =~= chars@);
    let (word, _) = read_word(chars.as_slice(), 0);
    let w = word.as_str();
    same_text(w, "BEGIN") || same_text(w, "COMMIT") || same_text(w, "END") || same_text(
        w,
        "ROLLBACK",
    ) || same_text(w, "SAVEPOINT") || same_text(w, "RELEASE") || same_text(w, "PRAGMA")
}

/// Statements that cannot change the schema: their effect is in row events.
pub fn is_row_statement(sql: &str) -> (r: bool)
    ensures
        r == only_rows(sql@),
{
    let chars = chars_of(sql);
    assert(chars@.skip(0) =~= chars@);
    let (word, _) = read_word(chars.as_slice(), 0);
    let w = word.as_str();
    same_text(w, "SELECT") || same_text(w, "INSERT") || same_text(w, "UPDATE") || same_text(
        w,
        "DELETE",
    ) || same_text(w, "REPLACE") || same_text(w, "WITH") || same_text(w, "VALUES") || same_text(
        w,
        "EXPLAIN",
    )
}

/// What a statement does to savepoints.
#[derive(Debug, PartialEq, Eq)]
pub enum SavepointStep {
    Nothing,
    /// One of that name is opened.
    Open(String),
    /// The innermost of that name is released, with those in it.
    Close(String),
    /// The state of the innermost of that name is restored.
    Back(String),
}

impl View for SavepointStep {
    type V = Nesting;

    open spec fn view(&self) -> Nesting {
        match self {
            SavepointStep::Nothing => Nesting::Nothing,
            SavepointStep::Open(name) => Nesting::Open(name@),
            SavepointStep::Close(name) => Nesting::Close(name@),
            SavepointStep::Back(name) => Nesting::Back(name@),
        }
    }
}

fn skip_optional(chars: &[char], from: usize, word: &str) -> (r: usize)
    requires
        from <= chars@.len(),
    ensures
        from <= r <= chars@.len(),
        chars@.skip(r as int) == after_optional(chars@.skip(from as int), word@),
{
    let (first, end) = read_word(chars, from);
    if same_text(first.as_str(), word) {
        end
    } else {
        from
    }
}

/// What a statement does to savepoints. Names are in upper case, as those that
/// differ in case alone are the same.
pub fn savepoint_step(sql: &str) -> (r: SavepointStep)
    ensures
        r@ == nesting(sql@),
{
    let text = chars_of(sql);
    let chars = text.as_slice();
    assert(chars@.skip(0) =~= chars@);
    let (first, at) = read_word(chars, 0);
    if same_text(first.as_str(), "SAVEPOINT") {
        let (name, _) = read_name(chars, at);
        return SavepointStep::Open(name);
    }
    if same_text(first.as_str(), "RELEASE") {
        let (name, _) = read_name(chars, skip_optional(chars, at, "SAVEPOINT"));
        return SavepointStep::Close(name);
    }
    if !same_text(first.as_str(), "ROLLBACK") {
        return SavepointStep::Nothing;
    }
    let (second, end) = read_word(chars, at);
    let mut to: usize = at;
    if same_text(second.as_str(), "TRANSACTION") {
        to = end;
        let (third, _) = read_word(chars, to);
        if !same_text(third.as_str(), "TO") {
            let (_, past) = read_name(chars, to);
            to = past;
        }
    }
    assert(chars@.skip(to as int) == after_transaction(chars@.skip(at as int)));
    let (word, target) = read_word(chars, to);
    if !same_text(word.as_str(), "TO") {
        return SavepointStep::Nothing;
    }
    let (name, _) = read_name(chars, skip_optional(chars, target, "SAVEPOINT"));
    SavepointStep::Back(name)
}

// ---------------------------------------------------------------------------
// Raw events
// ---------------------------------------------------------------------------

/// Which image of a row the hook is asked for.
#[derive(Clone, Copy, Debug, PartialEq, Eq, Structural)]
pub enum PreupdateValue {
    Old,
    New,
}

/// A row change as seen by the preupdate hook, before schema resolution.
#[derive(Debug, PartialEq, Eq)]
pub struct RawEvent {
    pub table: String,
    pub op: Op,
    /// rowid of the row (rowid tables). `None` for WITHOUT ROWID tables.
    pub rowid: Option<i64>,
    /// rowid of the row after the change (INSERT/UPDATE).
    pub new_rowid: Option<i64>,
    /// Full after-image (INSERT/UPDATE).
    pub new_row: Option<Vec<Value>>,
    /// Full before-image (DELETE and UPDATE, for the primary key).
    pub old_row: Option<Vec<Value>>,
}

/// A row change before schema resolution, mathematically.
#[verifier::ext_equal]
pub struct Raw {
    pub table: Seq<char>,
    pub op: Op,
    pub rowid: Option<i64>,
    pub new_rowid: Option<i64>,
    pub new_row: Option<Seq<Option<Scalar>>>,
    pub old_row: Option<Seq<Option<Scalar>>>,
}

pub open spec fn image(row: Option<Vec<Value>>) -> Option<Seq<Option<Scalar>>> {
    match row {
        Some(values) => Some(views(values@)),
        None => None,
    }
}

impl View for RawEvent {
    type V = Raw;

    open spec fn view(&self) -> Raw {
        Raw {
            table: self.table@,
            op: self.op,
            rowid: self.rowid,
            new_rowid: self.new_rowid,
            new_row: image(self.new_row),
            old_row: image(self.old_row),
        }
    }
}

/// The binlog value of a stored value: nothing of it is lost.
pub open spec fn cell_scalar(cell: Cell) -> Scalar {
    match cell {
        Cell::Null => Scalar::Null,
        Cell::Integer(i) => Scalar::Integer(i),
        Cell::Real(bits) => Scalar::Float(bits),
        Cell::Text(b) => if valid_utf8(b@) {
            Scalar::Text(decode_utf8(b@))
        } else {
            Scalar::RawText(b@)
        },
        Cell::Blob(b) => Scalar::Blob(b@),
    }
}

/// The binlog value of a stored value.
pub fn sqlite_value_to_value(cell: Cell) -> (r: Value)
    ensures
        r@ == Some(cell_scalar(cell)),
{
    match cell {
        Cell::Null => Value::null(),
        Cell::Integer(i) => Value::integer(i),
        Cell::Real(bits) => Value::float(bits),
        Cell::Text(b) => match utf8_text(b.as_slice()) {
            Some(text) => Value::text(text.as_str()),
            None => Value::raw_text(b),
        },
        Cell::Blob(b) => Value::blob(b),
    }
}

/// The change that an opcode of SQLite's hook stands for.
pub open spec fn opcode_op(opcode: i32) -> Option<Op> {
    if opcode == 18 {
        Some(Op::Insert)
    } else if opcode == 23 {
        Some(Op::Update)
    } else if opcode == 9 {
        Some(Op::Delete)
    } else {
        None
    }
}

pub fn hook_op(opcode: i32) -> (r: Option<Op>)
    ensures
        r == opcode_op(opcode),
{
    match opcode {
        18 => Some(Op::Insert),
        23 => Some(Op::Update),
        9 => Some(Op::Delete),
        _ => None,
    }
}

/// Whether a change has an image of that kind.
pub open spec fn has_image(op: Op, which: PreupdateValue) -> bool {
    match which {
        PreupdateValue::Old => op != Op::Insert,
        PreupdateValue::New => op != Op::Delete,
    }
}

pub fn wants_image(op: Op, which: PreupdateValue) -> (r: bool)
    ensures
        r == has_image(op, which),
{
    match which {
        PreupdateValue::Old => op != Op::Insert,
        PreupdateValue::New => op != Op::Delete,
    }
}

/// The change that the hook reports of a row of `count` columns, with the
/// images that its kind has: none without columns, for another opcode or another
/// database than the main one.
pub open spec fn reported(
    opcode: i32,
    count: i32,
    database: Seq<char>,
    table: Seq<char>,
    rowid: i64,
    new_rowid: i64,
    old_row: Seq<Option<Scalar>>,
    new_row: Seq<Option<Scalar>>,
) -> Option<Raw> {
    match opcode_op(opcode) {
        Some(op) if count > 0 && database == "main"@ => Some(
            Raw {
                table,
                op,
                rowid: Some(rowid),
                new_rowid: if has_image(op, PreupdateValue::New) {
                    Some(new_rowid)
                } else {
                    None
                },
                new_row: if has_image(op, PreupdateValue::New) {
                    Some(new_row)
                } else {
                    None
                },
                old_row: if has_image(op, PreupdateValue::Old) {
                    Some(old_row)
                } else {
                    None
                },
            },
        ),
        _ => None,
    }
}

// ---------------------------------------------------------------------------
// Units
// ---------------------------------------------------------------------------

/// One open capture unit = one SQLite transaction (explicit or implicit).
#[derive(Debug, PartialEq, Eq)]
pub struct CaptureUnit {
    pub rows: Vec<RawEvent>,
    /// The tables of the first rows, as they were when the rows were changed.
    pub shapes: Vec<TableInfo>,
    /// What became of tables since.
    pub moves: Vec<TableMove>,
    /// SQL executed in this unit, for DDL replication.
    pub stmts: Vec<String>,
    pub schema_version_at_start: i64,
    pub latest_schema_version: i64,
    /// rows.len() at the last statement start, for rollback-on-error.
    pub snapshot: usize,
    /// stmts.len() at the last statement start.
    pub stmt_snapshot: usize,
    /// The savepoints that are open, outermost first.
    pub savepoints: Vec<Savepoint>,
    /// True when the buffer is no longer trustworthy: a savepoint rollback
    /// occurred mid-unit that the savepoints above cannot account for, or a
    /// row does not fit its table. Dropped at commit.
    pub poisoned: bool,
}

/// An open savepoint, and how far the unit's buffers had come at it.
#[derive(Debug, PartialEq, Eq)]
pub struct Savepoint {
    pub name: String,
    pub rows: usize,
    pub stmts: usize,
    pub moves: usize,
}

/// An open savepoint, mathematically.
#[verifier::ext_equal]
pub struct Mark {
    pub name: Seq<char>,
    pub rows: nat,
    pub stmts: nat,
    pub moves: nat,
}

impl View for Savepoint {
    type V = Mark;

    open spec fn view(&self) -> Mark {
        Mark {
            name: self.name@,
            rows: self.rows as nat,
            stmts: self.stmts as nat,
            moves: self.moves as nat,
        }
    }
}

/// The number of the innermost savepoint of that name.
pub open spec fn innermost(marks: Seq<Mark>, name: Seq<char>) -> Option<nat>
    decreases marks.len(),
{
    if marks.len() == 0 {
        None
    } else if marks.last().name == name {
        Some((marks.len() - 1) as nat)
    } else {
        innermost(marks.drop_last(), name)
    }
}

/// The first `n` items of a buffer; all of them where there are fewer.
pub open spec fn kept<T>(items: Seq<T>, n: nat) -> Seq<T> {
    if n <= items.len() {
        items.take(n as int)
    } else {
        items
    }
}

/// A capture unit, mathematically.
#[verifier::ext_equal]
pub struct Unit {
    pub rows: Seq<Raw>,
    pub shapes: Seq<Table>,
    pub moves: Seq<Move>,
    pub stmts: Seq<Seq<char>>,
    pub at_start: i64,
    pub latest: i64,
    pub snapshot: nat,
    pub stmt_snapshot: nat,
    pub savepoints: Seq<Mark>,
    pub poisoned: bool,
}

impl View for CaptureUnit {
    type V = Unit;

    open spec fn view(&self) -> Unit {
        Unit {
            rows: views(self.rows@),
            shapes: views(self.shapes@),
            moves: views(self.moves@),
            stmts: views(self.stmts@),
            at_start: self.schema_version_at_start,
            latest: self.latest_schema_version,
            snapshot: self.snapshot as nat,
            stmt_snapshot: self.stmt_snapshot as nat,
            savepoints: views(self.savepoints@),
            poisoned: self.poisoned,
        }
    }
}

impl Unit {
    pub open spec fn begun(version: i64) -> Unit {
        Unit {
            rows: seq![],
            shapes: seq![],
            moves: seq![],
            stmts: seq![],
            at_start: version,
            latest: version,
            snapshot: 0,
            stmt_snapshot: 0,
            savepoints: seq![],
            poisoned: false,
        }
    }

    /// A statement starts.
    pub open spec fn recorded(self, sql: Seq<char>) -> Unit {
        Unit {
            snapshot: self.rows.len(),
            stmt_snapshot: self.stmts.len(),
            stmts: if controls_txn(sql) {
                self.stmts
            } else {
                self.stmts.push(sql)
            },
            ..self
        }
    }

    /// A row change was reported.
    pub open spec fn with_row(self, row: Raw) -> Unit {
        Unit { rows: self.rows.push(row), ..self }
    }

    /// A statement failed: it and its partial events are removed, and outside
    /// a transaction everything is.
    pub open spec fn failed(self, autocommit: bool) -> Unit {
        if autocommit {
            Unit { rows: seq![], shapes: seq![], moves: seq![], stmts: seq![], ..self }
        } else {
            Unit {
                rows: kept(self.rows, self.snapshot),
                shapes: kept(self.shapes, self.snapshot),
                stmts: kept(self.stmts, self.stmt_snapshot),
                ..self
            }
        }
    }

    /// The tables of the rows that a statement changed are known: each row has
    /// the table it was made in. A row that fits none makes the buffers
    /// worthless.
    pub open spec fn shaped_by(self, tables: Map<Seq<char>, Table>) -> Unit
        decreases self.rows.len() - self.shapes.len(),
    {
        if self.shapes.len() >= self.rows.len() {
            self
        } else {
            let raw = self.rows[self.shapes.len() as int];
            if tables.contains_key(raw.table) && fits(raw, tables[raw.table]) {
                (Unit { shapes: self.shapes.push(tables[raw.table]), ..self }).shaped_by(tables)
            } else {
                Unit { poisoned: true, ..self }
            }
        }
    }

    /// The table at `root` became another, or was dropped.
    pub open spec fn moved(self, root: i64, becomes: Option<(Seq<char>, Table)>) -> Unit {
        if becomes matches Some((_, table)) ==> shaped(table) {
            Unit { moves: self.moves.push(Move { rows: self.rows.len(), root, becomes }), ..self }
        } else {
            Unit { poisoned: true, ..self }
        }
    }

    /// Rows that have a table fit it, and what tables became has its shape.
    pub open spec fn sound(self) -> bool {
        all_fit(self.rows, self.shapes) && all_shaped(self.moves)
    }

    /// A savepoint was opened.
    pub open spec fn saved(self, name: Seq<char>) -> Unit {
        let mark = Mark {
            name,
            rows: self.rows.len(),
            stmts: self.stmts.len(),
            moves: self.moves.len(),
        };
        Unit { savepoints: self.savepoints.push(mark), ..self }
    }

    /// A savepoint was released, with those in it.
    pub open spec fn released(self, name: Seq<char>) -> Unit {
        match innermost(self.savepoints, name) {
            Some(i) => Unit { savepoints: self.savepoints.take(i as int), ..self },
            None => self,
        }
    }

    /// What was done since a savepoint was undone; the savepoint stays open. A
    /// rollback to one that is not known makes the buffers worthless.
    pub open spec fn rolled_back_to(self, name: Seq<char>) -> Unit {
        match innermost(self.savepoints, name) {
            Some(i) => Unit {
                rows: kept(self.rows, self.savepoints[i as int].rows),
                shapes: kept(self.shapes, self.savepoints[i as int].rows),
                moves: kept(self.moves, self.savepoints[i as int].moves),
                stmts: kept(self.stmts, self.savepoints[i as int].stmts),
                savepoints: self.savepoints.take(i as int + 1),
                ..self
            },
            None => Unit { poisoned: true, ..self },
        }
    }

    /// A statement ran.
    pub open spec fn ran(self, sql: Seq<char>) -> Unit {
        match nesting(sql) {
            Nesting::Nothing => self,
            Nesting::Open(name) => self.saved(name),
            Nesting::Close(name) => self.released(name),
            Nesting::Back(name) => self.rolled_back_to(name),
        }
    }
}

proof fn kept_sound(unit: Unit, rows: nat, moves: nat)
    requires
        unit.sound(),
    ensures
        all_fit(kept(unit.rows, rows), kept(unit.shapes, rows)),
        all_shaped(kept(unit.moves, moves)),
{
    let r = kept(unit.rows, rows);
    let t = kept(unit.shapes, rows);
    assert forall|i: int| 0 <= i < t.len() implies fits(#[trigger] r[i], t[i]) by {
        assert(fits(unit.rows[i], unit.shapes[i]));
    }
    let m = kept(unit.moves, moves);
    assert forall|i: int| 0 <= i < m.len() implies ((
    #[trigger] m[i]).becomes matches Some((_, table)) ==> shaped(table)) by {
        assert(m[i] == unit.moves[i]);
    }
}

/// A unit stays sound, whatever statements do to it.
pub proof fn unit_stays_sound(unit: Unit, sql: Seq<char>, row: Raw)
    requires
        unit.sound(),
    ensures
        unit.recorded(sql).sound(),
        unit.with_row(row).sound(),
        unit.failed(false).sound(),
        unit.ran(sql).sound(),
{
    assert forall|i: int| 0 <= i < unit.shapes.len() implies fits(
        #[trigger] unit.with_row(row).rows[i],
        unit.shapes[i],
    ) by {
        assert(fits(unit.rows[i], unit.shapes[i]));
    }
    kept_sound(unit, unit.snapshot, unit.moves.len());
    assert(kept(unit.moves, unit.moves.len()) =~= unit.moves);
    if let Nesting::Back(name) = nesting(sql) {
        if let Some(i) = innermost(unit.savepoints, name) {
            kept_sound(unit, unit.savepoints[i as int].rows, unit.savepoints[i as int].moves);
        }
    }
}

proof fn shaping_stays_sound(unit: Unit, tables: Map<Seq<char>, Table>)
    requires
        unit.sound(),
    ensures
        unit.shaped_by(tables).sound(),
    decreases unit.rows.len() - unit.shapes.len(),
{
    if unit.shapes.len() < unit.rows.len() {
        let n = unit.shapes.len() as int;
        let raw = unit.rows[n];
        if tables.contains_key(raw.table) && fits(raw, tables[raw.table]) {
            let next = Unit { shapes: unit.shapes.push(tables[raw.table]), ..unit };
            assert forall|i: int| 0 <= i < next.shapes.len() implies fits(
                #[trigger] next.rows[i],
                next.shapes[i],
            ) by {
                if i < n {
                    assert(fits(unit.rows[i], unit.shapes[i]));
                }
            }
            shaping_stays_sound(next, tables);
        }
    }
}

impl CaptureUnit {
    pub fn begin(schema_version: i64) -> (r: Self)
        ensures
            r@ == Unit::begun(schema_version),
    {
        let r = CaptureUnit {
            rows: Vec::new(),
            shapes: Vec::new(),
            moves: Vec::new(),
            stmts: Vec::new(),
            schema_version_at_start: schema_version,
            latest_schema_version: schema_version,
            snapshot: 0,
            stmt_snapshot: 0,
            savepoints: Vec::new(),
            poisoned: false,
        };
        assert(r@ =~= Unit::begun(schema_version));
        r
    }

    /// Call before executing a statement: remember the buffer position so a
    /// failed statement's partial events can be rolled back.
    pub fn mark_statement_start(&mut self)
        ensures
            final(self)@ == (Unit {
                snapshot: old(self)@.rows.len(),
                stmt_snapshot: old(self)@.stmts.len(),
                ..old(self)@
            }),
    {
        self.snapshot = self.rows.len();
        self.stmt_snapshot = self.stmts.len();
        assert(self@ =~= Unit {
            snapshot: old(self)@.rows.len(),
            stmt_snapshot: old(self)@.stmts.len(),
            ..old(self)@
        });
    }

    /// A statement failed. If we're in autocommit the whole unit is gone;
    /// otherwise only the failed statement and its events are removed.
    pub fn rollback_statement(&mut self, autocommit: bool)
        ensures
            final(self)@ == old(self)@.failed(autocommit),
    {
        if autocommit {
            self.rows.clear();
            self.shapes.clear();
            self.moves.clear();
            self.stmts.clear();
        } else {
            self.rows.truncate(self.snapshot);
            self.shapes.truncate(self.snapshot);
            self.stmts.truncate(self.stmt_snapshot);
            assert(self.rows@ =~= kept(old(self).rows@, self.snapshot as nat));
            assert(self.shapes@ =~= kept(old(self).shapes@, self.snapshot as nat));
            assert(self.stmts@ =~= kept(old(self).stmts@, self.stmt_snapshot as nat));
        }
        assert(self@ =~= old(self)@.failed(autocommit));
    }

    fn innermost(&self, name: &str) -> (r: Option<usize>)
        ensures
            match r {
                Some(i) => innermost(self@.savepoints, name@) == Some(i as nat) && i
                    < self.savepoints@.len(),
                None => innermost(self@.savepoints, name@) is None,
            },
    {
        let ghost marks = self@.savepoints;
        let mut n: usize = self.savepoints.len();
        assert(marks.take(n as int) =~= marks);
        while n > 0
            invariant
                n <= self.savepoints@.len(),
                marks == views(self.savepoints@),
                innermost(marks.take(n as int), name@) == innermost(marks, name@),
            decreases n,
        {
            assert(marks.take(n as int).drop_last() =~= marks.take(n - 1));
            assert(marks.take(n as int).last() == self.savepoints@[n - 1]@);
            if same_text(self.savepoints[n - 1].name.as_str(), name) {
                return Some(n - 1);
            }
            n = n - 1;
        }
        None
    }

    /// A statement ran: savepoints are opened and released by it, and what was
    /// done since one is forgotten by a rollback to it.
    pub fn statement_ran(&mut self, sql: &str)
        ensures
            final(self)@ == old(self)@.ran(sql@),
    {
        match savepoint_step(sql) {
            SavepointStep::Nothing => {},
            SavepointStep::Open(name) => {
                let mark = Savepoint {
                    name,
                    rows: self.rows.len(),
                    stmts: self.stmts.len(),
                    moves: self.moves.len(),
                };
                self.savepoints.push(mark);
            },
            SavepointStep::Close(name) => {
                if let Some(i) = self.innermost(name.as_str()) {
                    self.savepoints.truncate(i);
                    assert(self.savepoints@ =~= old(self).savepoints@.take(i as int));
                }
            },
            SavepointStep::Back(name) => {
                match self.innermost(name.as_str()) {
                    Some(i) => {
                        let rows: usize = self.savepoints[i].rows;
                        let stmts: usize = self.savepoints[i].stmts;
                        let moves: usize = self.savepoints[i].moves;
                        let open: usize = self.savepoints.len();
                        assert(i < open);
                        self.rows.truncate(rows);
                        self.shapes.truncate(rows);
                        self.moves.truncate(moves);
                        self.stmts.truncate(stmts);
                        self.savepoints.truncate(i + 1);
                        assert(self.rows@ =~= kept(old(self).rows@, rows as nat));
                        assert(self.shapes@ =~= kept(old(self).shapes@, rows as nat));
                        assert(self.moves@ =~= kept(old(self).moves@, moves as nat));
                        assert(self.stmts@ =~= kept(old(self).stmts@, stmts as nat));
                        assert(self.savepoints@ =~= old(self).savepoints@.take(i + 1));
                    },
                    None => {
                        self.poisoned = true;
                    },
                }
            },
        }
        assert(self@ =~= old(self)@.ran(sql@));
    }
}

/// Connection-scoped capture state.
pub struct Capture {
    pub unit: Option<CaptureUnit>,
    /// Set by the commit hook; consumed after the statement.
    pub commit_pending: bool,
    pub schema: SchemaCache,
}

/// Connection-scoped capture state, mathematically.
#[verifier::ext_equal]
pub struct Captured {
    pub unit: Option<Unit>,
    pub commit_pending: bool,
    pub schema: Schemas,
}

pub open spec fn unit_view(unit: Option<CaptureUnit>) -> Option<Unit> {
    match unit {
        Some(u) => Some(u@),
        None => None,
    }
}

impl View for Capture {
    type V = Captured;

    open spec fn view(&self) -> Captured {
        Captured {
            unit: unit_view(self.unit),
            commit_pending: self.commit_pending,
            schema: self.schema@,
        }
    }
}

impl Captured {
    /// The state without cached schemas: a rollback may have undone a schema
    /// change, and its version can come again.
    pub open spec fn forgetful(self) -> Captured {
        Captured { schema: Schemas { tables: Map::empty(), ..self.schema }, ..self }
    }

    /// The state with another unit in place of the one that is open.
    pub open spec fn with_unit(self, unit: Option<Unit>) -> Captured {
        Captured { unit, ..self }
    }

    pub open spec fn begun(self, version: i64) -> Captured {
        if self.unit is None {
            self.with_unit(Some(Unit::begun(version)))
        } else {
            self
        }
    }

    pub open spec fn recorded(self, sql: Seq<char>) -> Captured {
        match self.unit {
            Some(unit) => self.with_unit(Some(unit.recorded(sql))),
            None => self,
        }
    }

    pub open spec fn with_row(self, row: Raw) -> Captured {
        match self.unit {
            Some(unit) => self.with_unit(Some(unit.with_row(row))),
            None => self,
        }
    }

    /// Row changes were reported, one after the other.
    pub open spec fn with_rows(self, rows: Seq<Raw>) -> Captured
        decreases rows.len(),
    {
        if rows.len() == 0 {
            self
        } else {
            self.with_rows(rows.drop_last()).with_row(rows.last())
        }
    }

    pub open spec fn failed(self, autocommit: bool) -> Captured {
        match self.unit {
            Some(unit) => self.with_unit(
                if autocommit {
                    None
                } else {
                    Some(unit.failed(false))
                },
            ),
            None => self,
        }
    }
}

impl Capture {
    pub open spec fn wf(&self) -> bool {
        self.schema.wf() && (self@.unit matches Some(unit) ==> unit.sound())
    }

    pub fn new(schema_version: i64) -> (r: Self)
        ensures
            r.wf(),
            r@ == (Captured {
                unit: None,
                commit_pending: false,
                schema: Schemas { version: schema_version, tables: Map::empty() },
            }),
    {
        Capture {
            unit: None,
            commit_pending: false,
            schema: SchemaCache::with_schema_version(schema_version),
        }
    }

    pub fn begin_unit(&mut self, schema_version: i64)
        requires
            old(self).wf(),
        ensures
            final(self).wf(),
            final(self)@ == old(self)@.begun(schema_version),
    {
        if self.unit.is_none() {
            self.unit = Some(CaptureUnit::begin(schema_version));
        }
    }

    /// A statement is about to run.
    pub fn record_statement(&mut self, sql: &str)
        requires
            old(self).wf(),
        ensures
            final(self).wf(),
            final(self)@ == old(self)@.recorded(sql@),
    {
        if let Some(mut unit) = self.unit.take() {
            proof {
                unit_stays_sound(unit@, sql@, arbitrary());
            }
            unit.mark_statement_start();
            if !is_txn_control(sql) {
                unit.stmts.push(sql.to_owned());
            }
            self.unit = Some(unit);
        }
        assert(self@ =~= old(self)@.recorded(sql@));
    }

    /// The preupdate hook reported a row change.
    pub fn record_row(&mut self, row: RawEvent)
        requires
            old(self).wf(),
        ensures
            final(self).wf(),
            final(self)@ == old(self)@.with_row(row@),
    {
        if let Some(mut unit) = self.unit.take() {
            proof {
                unit_stays_sound(unit@, seq![], row@);
            }
            unit.rows.push(row);
            self.unit = Some(unit);
        }
        assert(self@ =~= old(self)@.with_row(row@));
    }

    /// The preupdate hook was called for a row of `count` columns: the change
    /// is buffered, with the images that its kind has. Without an open unit,
    /// without columns, for another opcode or another database than the main
    /// one nothing is.
    pub fn preupdate(
        &mut self,
        opcode: i32,
        count: i32,
        database: &str,
        table: String,
        rowid: i64,
        new_rowid: i64,
        old_row: Vec<Value>,
        new_row: Vec<Value>,
    )
        requires
            old(self).wf(),
        ensures
            final(self).wf(),
            final(self)@ == (match reported(
                opcode,
                count,
                database@,
                table@,
                rowid,
                new_rowid,
                views(old_row@),
                views(new_row@),
            ) {
                Some(raw) => old(self)@.with_row(raw),
                None => old(self)@,
            }),
    {
        if count <= 0 || !same_text(database, "main") {
            return;
        }
        if let Some(op) = hook_op(opcode) {
            let new_rowid: Option<i64> = if wants_image(op, PreupdateValue::New) {
                Some(new_rowid)
            } else {
                None
            };
            let new_row: Option<Vec<Value>> = if wants_image(op, PreupdateValue::New) {
                Some(new_row)
            } else {
                None
            };
            let old_row: Option<Vec<Value>> = if wants_image(op, PreupdateValue::Old) {
                Some(old_row)
            } else {
                None
            };
            self.record_row(
                RawEvent { table, op, rowid: Some(rowid), new_rowid, new_row, old_row },
            );
        }
    }

    /// A statement failed.
    pub fn rollback_statement(&mut self, autocommit: bool)
        requires
            old(self).wf(),
        ensures
            final(self).wf(),
            final(self)@ == old(self)@.failed(autocommit),
    {
        if let Some(mut unit) = self.unit.take() {
            proof {
                unit_stays_sound(unit@, seq![], arbitrary());
            }
            unit.rollback_statement(autocommit);
            if !autocommit {
                self.unit = Some(unit);
            }
        }
        assert(self@ =~= old(self)@.failed(autocommit));
    }

    pub fn drop_unit(&mut self)
        requires
            old(self).wf(),
        ensures
            final(self).wf(),
            final(self)@ == old(self)@.ended(),
    {
        self.unit = None;
        self.commit_pending = false;
    }

    /// The commit hook was called.
    pub fn note_commit(&mut self)
        requires
            old(self).wf(),
        ensures
            final(self).wf(),
            final(self)@ == old(self)@.committing(),
    {
        self.commit_pending = true;
    }

    /// The rollback hook was called: uncommitted events are discarded. Tells
    /// whether there was a unit to drop.
    pub fn note_rollback(&mut self) -> (r: bool)
        requires
            old(self).wf(),
        ensures
            final(self).wf(),
            final(self)@ == old(self)@.rolled_back(),
            r == (old(self)@.unit is Some),
    {
        let dropped: bool = self.unit.is_some();
        self.unit = None;
        self.schema.clear();
        dropped
    }
}

/// A value in words.
pub open spec fn debug_words(v: Option<Scalar>, reals: Map<u64, Seq<char>>) -> Seq<char> {
    match v {
        None => "UNKNOWN"@,
        Some(Scalar::Null) => "NULL"@,
        Some(Scalar::Integer(i)) => signed_decimal(i as int),
        Some(Scalar::Float(bits)) => reals[bits],
        Some(Scalar::Text(s)) => s,
        Some(Scalar::Blob(b)) => "<blob "@ + decimal(b.len()) + " bytes>"@,
        Some(Scalar::RawText(b)) => "<text "@ + decimal(b.len()) + " bytes>"@,
    }
}

/// A value in words, for debugging. `reals` gives the doubles' decimal forms.
pub fn value_debug(v: &Value, reals: &HashMap<u64, String>) -> (r: String)
    requires
        renderable(v@, decimals(reals@)),
    ensures
        r@ == debug_words(v@, decimals(reals@)),
{
    let mut r = String::new();
    match &v.value {
        None => {
            r.append("UNKNOWN");
        },
        Some(value::Value::Null(_)) => {
            r.append("NULL");
        },
        Some(value::Value::Integer(i)) => {
            push_signed(&mut r, *i);
        },
        Some(value::Value::Float(bits)) => {
            assert(reals@.contains_key(*bits));
            if let Some(text) = reals.get(bits) {
                r.append(text.as_str());
            }
        },
        Some(value::Value::Text(s)) => {
            r.append(s.as_str());
        },
        Some(value::Value::Blob(b)) => {
            r.append("<blob ");
            push_decimal(&mut r, b.len() as u64);
            r.append(" bytes>");
        },
        Some(value::Value::RawText(b)) => {
            r.append("<text ");
            push_decimal(&mut r, b.len() as u64);
            r.append(" bytes>");
        },
    }
    assert(r@ =~= debug_words(v@, decimals(reals@)));
    r
}

/// Row events and statements of the open unit.
pub fn unit_stats(capture: &Capture) -> (r: (usize, usize))
    ensures
        match capture@.unit {
            Some(u) => r.0 == u.rows.len() && r.1 == u.stmts.len(),
            None => r == (0usize, 0usize),
        },
{
    match &capture.unit {
        Some(u) => (u.rows.len(), u.stmts.len()),
        None => (0, 0),
    }
}

// ---------------------------------------------------------------------------
// Finalization: raw events -> row events, plus DDL detection
// ---------------------------------------------------------------------------

/// The statements that can have changed the schema, in order.
pub open spec fn schema_statements(stmts: Seq<Seq<char>>) -> Seq<Seq<char>>
    decreases stmts.len(),
{
    if stmts.len() == 0 {
        seq![]
    } else if only_rows(stmts.last()) {
        schema_statements(stmts.drop_last())
    } else {
        schema_statements(stmts.drop_last()).push(stmts.last())
    }
}

/// The schema changes of a unit: its schema statements, where the schema's
/// version is another than when it began.
pub open spec fn unit_ddl(unit: Unit) -> Seq<Seq<Seq<char>>> {
    let stmts = schema_statements(unit.stmts);
    if unit.at_start != unit.latest && stmts.len() > 0 {
        seq![stmts]
    } else {
        seq![]
    }
}

/// What a committed unit changed.
#[verifier::ext_equal]
pub struct Changes {
    pub rows: Seq<Row>,
    pub ddl: Seq<Seq<Seq<char>>>,
}

/// What a committed unit changed, if anything. A unit that is no longer
/// trustworthy counts as nothing.
pub open spec fn unit_changes(unit: Unit) -> Option<Changes> {
    let changes = Changes {
        rows: all_events(unit.rows, unit.shapes, unit.moves, unit.rows.len()),
        ddl: unit_ddl(unit),
    };
    if unit.lost() || (changes.rows.len() == 0 && changes.ddl.len() == 0) {
        None
    } else {
        Some(changes)
    }
}

impl Unit {
    /// Whether the unit's changes cannot be told: the buffers are worthless,
    /// or a row's table is not known.
    pub open spec fn lost(self) -> bool {
        self.poisoned || self.shapes.len() < self.rows.len()
    }
}

/// What a committed unit changed.
#[derive(Debug, PartialEq, Eq)]
pub struct FinalizeResult {
    pub rows: Vec<RowEvent>,
    pub ddl: Vec<DdlEvent>,
}

impl View for FinalizeResult {
    type V = Changes;

    open spec fn view(&self) -> Changes {
        Changes { rows: views(self.rows@), ddl: views(self.ddl@) }
    }
}

fn pick_schema_statements(stmts: &Vec<String>) -> (r: Vec<String>)
    ensures
        views(r@) == schema_statements(views(stmts@)),
{
    let ghost all = views(stmts@);
    let mut r: Vec<String> = Vec::new();
    let mut i: usize = 0;
    assert(all.take(0) =~= seq![]);
    assert(views(r@) =~= schema_statements(all.take(0)));
    while i < stmts.len()
        invariant
            i <= stmts@.len(),
            all == views(stmts@),
            views(r@) == schema_statements(all.take(i as int)),
        decreases stmts@.len() - i,
    {
        assert(all.take(i + 1).drop_last() =~= all.take(i as int));
        assert(all.take(i + 1).last() == stmts@[i as int]@);
        if !is_row_statement(stmts[i].as_str()) {
            r.push(stmts[i].clone());
        }
        i = i + 1;
    }
    assert(all.take(i as int) =~= all);
    r
}

/// Resolves the open unit's raw events into row events, and ends the unit.
pub fn finalize_unit(capture: &mut Capture) -> (r: Option<FinalizeResult>)
    requires
        old(capture).wf(),
    ensures
        final(capture).wf(),
        ({
            let (changes, after) = old(capture)@.finalized();
            &&& match changes {
                Some(changes) => r matches Some(x) && x@ == changes,
                None => r is None,
            }
            &&& final(capture)@ == after
        }),
        r matches Some(x) ==> forall|i: int|
            #![trigger x@.rows[i]]
            0 <= i < x@.rows.len() && x@.rows[i].op != Op::Delete.number()
                ==> x@.rows[i].columns.len() == x@.rows[i].values.len(),
        r matches Some(x) ==> forall|i: int|
            #![trigger x@.rows[i]]
            0 <= i < x@.rows.len() && x@.rows[i].op == Op::Delete.number()
                ==> x@.rows[i].pk_columns.len() == x@.rows[i].pk_values.len(),
{
    let unit = match capture.unit.take() {
        Some(unit) => unit,
        None => {
            return None;
        },
    };
    capture.commit_pending = false;
    assert(unit@.rows.len() == unit.rows@.len() && unit@.shapes.len() == unit.shapes@.len());
    if unit.poisoned || unit.shapes.len() < unit.rows.len() {
        return None;
    }
    let rows = collect_events(&unit.rows, &unit.shapes, &unit.moves);
    proof {
        events_are_well_formed(unit@.rows, unit@.shapes, unit@.moves, unit@.rows.len());
    }
    let mut ddl: Vec<DdlEvent> = Vec::new();
    assert(views(ddl@) =~= seq![]);
    if unit.schema_version_at_start != unit.latest_schema_version {
        let statements = pick_schema_statements(&unit.stmts);
        if statements.len() > 0 {
            ddl.push(DdlEvent { statements });
            assert(views(ddl@) =~= unit_ddl(unit@));
        }
    }
    assert(views(ddl@) =~= unit_ddl(unit@));
    assert(views(rows@).len() == rows@.len());
    if rows.len() == 0 && ddl.len() == 0 {
        return None;
    }
    Some(FinalizeResult { rows, ddl })
}

/// The tables of row changes that are not known yet.
pub open spec fn unknown(rows: Seq<Raw>, tables: Map<Seq<char>, Table>) -> Seq<Seq<char>>
    decreases rows.len(),
{
    if rows.len() == 0 {
        seq![]
    } else if tables.contains_key(rows.last().table) {
        unknown(rows.drop_last(), tables)
    } else {
        unknown(rows.drop_last(), tables).push(rows.last().table)
    }
}

/// Whether the tables of rows have to be looked up once the statement ran:
/// those of rows that it changed, or those that it may have altered.
pub open spec fn wants_schema(unit: Option<Unit>, sql: Seq<char>) -> bool {
    match unit {
        Some(unit) => unit.shapes.len() < unit.rows.len() || (unit.rows.len() > 0 && alters(sql)),
        None => false,
    }
}

/// Whether the statement may alter tables.
pub open spec fn alters(sql: Seq<char>) -> bool {
    !only_rows(sql) && !controls_txn(sql)
}

/// Whether the statement may alter tables, so that what it made of those that
/// rows were changed in is to be looked up.
pub fn alters_tables(sql: &str) -> (r: bool)
    ensures
        r == alters(sql@),
{
    !is_row_statement(sql) && !is_txn_control(sql)
}

/// The places of the tables that rows were changed in, each once.
pub open spec fn are_roots(roots: Seq<i64>, shapes: Seq<Table>) -> bool {
    &&& roots.no_duplicates()
    &&& forall|i: int| 0 <= i < shapes.len() ==> roots.contains((#[trigger] shapes[i]).root)
    &&& forall|k: int| 0 <= k < roots.len() ==> has_root(shapes, #[trigger] roots[k])
}

/// Whether one of the tables is at `root`.
pub open spec fn has_root(shapes: Seq<Table>, root: i64) -> bool {
    exists|i: int| 0 <= i < shapes.len() && (#[trigger] shapes[i]).root == root
}

fn holds_root(roots: &Vec<i64>, root: i64) -> (r: bool)
    ensures
        r == roots@.contains(root),
{
    let mut i: usize = 0;
    while i < roots.len()
        invariant
            i <= roots@.len(),
            forall|k: int| 0 <= k < i ==> roots@[k] != root,
        decreases roots@.len() - i,
    {
        if roots[i] == root {
            assert(roots@[i as int] == root);
            return true;
        }
        i = i + 1;
    }
    false
}

impl Capture {
    /// Whether tables have to be looked up once the statement ran. Then rows
    /// were changed, so that reading the schema inside the transaction holds
    /// no other connection up.
    pub fn wants_schema(&self, sql: &str) -> (r: bool)
        ensures
            r == wants_schema(self@.unit, sql@),
    {
        match &self.unit {
            Some(unit) => {
                assert(unit@.rows.len() == unit.rows@.len());
                assert(unit@.shapes.len() == unit.shapes@.len());
                unit.shapes.len() < unit.rows.len() || (unit.rows.len() > 0 && alters_tables(sql))
            },
            None => false,
        }
    }

    /// The tables of rows that the statement changed and that the schema cache
    /// does not hold under that schema version. They are to be fetched.
    pub fn unknown_tables(&mut self, version: i64) -> (r: Vec<String>)
        requires
            old(self).wf(),
        ensures
            final(self).wf(),
            match old(self)@.unit {
                Some(unit) => {
                    let schema = old(self)@.schema.refreshed(version);
                    &&& views(r@) == unknown(unit.rows.skip(unit.shapes.len() as int), schema.tables)
                    &&& final(self)@ == Captured { schema, ..old(self)@ }
                },
                None => r@.len() == 0 && final(self)@ == old(self)@,
            },
    {
        let mut r: Vec<String> = Vec::new();
        match &self.unit {
            Some(unit) => {
                self.schema.refresh(version);
                let ghost n = unit.shapes@.len() as int;
                assert(unit@.shapes.len() == n && unit@.rows.len() == unit.rows@.len());
                let ghost raws = unit@.rows.skip(n);
                let ghost tables = self.schema@.tables;
                let mut i: usize = unit.shapes.len();
                assert(raws.take(0) =~= seq![]);
                assert(views(r@) =~= unknown(raws.take(0), tables));
                while i < unit.rows.len()
                    invariant
                        n <= i <= unit.rows@.len(),
                        n >= 0,
                        self.schema.wf(),
                        tables == self.schema@.tables,
                        raws == unit@.rows.skip(n),
                        views(r@) == unknown(raws.take(i - n), tables),
                    decreases unit.rows@.len() - i,
                {
                    assert(raws.take(i - n + 1).drop_last() =~= raws.take(i - n));
                    assert(raws.take(i - n + 1).last() == unit.rows@[i as int]@);
                    if self.schema.lookup(unit.rows[i].table.as_str()).is_none() {
                        r.push(unit.rows[i].table.clone());
                    }
                    i = i + 1;
                }
                assert(raws.take(i - n) =~= raws);
            },
            None => {},
        }
        assert(views(r@).len() == r@.len());
        r
    }

    /// Gives each row that the statement changed the table it was made in, as
    /// the schema cache holds it under that schema version.
    pub fn resolve(&mut self, version: i64)
        requires
            old(self).wf(),
        ensures
            final(self).wf(),
            match old(self)@.unit {
                Some(unit) => {
                    let schema = old(self)@.schema.refreshed(version);
                    final(self)@ == Captured {
                        unit: Some(unit.shaped_by(schema.tables)),
                        schema,
                        ..old(self)@
                    }
                },
                None => final(self)@ == old(self)@,
            },
    {
        if let Some(mut unit) = self.unit.take() {
            self.schema.refresh(version);
            let ghost start = unit@;
            let ghost tables = self.schema@.tables;
            proof {
                shaping_stays_sound(start, tables);
            }
            let mut done: bool = unit.shapes.len() >= unit.rows.len();
            assert(unit@.rows.len() == unit.rows@.len() && unit@.shapes.len() == unit.shapes@.len());
            while !done
                invariant
                    self.schema.wf(),
                    self.schema@ == old(self)@.schema.refreshed(version),
                    self.commit_pending == old(self).commit_pending,
                    tables == self.schema@.tables,
                    !done ==> unit@.shaped_by(tables) == start.shaped_by(tables)
                        && unit.shapes@.len() < unit.rows@.len(),
                    done ==> unit@ == start.shaped_by(tables),
                decreases (if done {
                    0int
                } else {
                    unit.rows@.len() - unit.shapes@.len() + 1
                }),
            {
                let n: usize = unit.shapes.len();
                assert(unit@.rows.len() == unit.rows@.len() && unit@.shapes.len() == n);
                assert(unit@.rows[n as int] == unit.rows@[n as int]@);
                let ghost before = unit@;
                let found: Option<TableInfo> = match self.schema.lookup(
                    unit.rows[n].table.as_str(),
                ) {
                    Some(info) => if row_fits(&unit.rows[n], info) {
                        Some(info.clone())
                    } else {
                        None
                    },
                    None => None,
                };
                match found {
                    Some(info) => {
                        unit.shapes.push(info);
                        assert(unit@ =~= Unit { shapes: before.shapes.push(info@), ..before });
                        assert(unit@.shapes.len() == unit.shapes@.len());
                        assert(unit@.shaped_by(tables) == before.shaped_by(tables));
                        done = unit.shapes.len() >= unit.rows.len();
                        assert(done ==> unit@.shaped_by(tables) == unit@);
                    },
                    None => {
                        unit.poisoned = true;
                        assert(unit@ =~= Unit { poisoned: true, ..before });
                        done = true;
                    },
                }
            }
            self.unit = Some(unit);
        }
    }

    /// The places of the tables that rows of the open unit were changed in,
    /// each once. What a statement that may alter tables made of them is to be
    /// looked up.
    pub fn roots(&self) -> (r: Vec<i64>)
        ensures
            match self@.unit {
                Some(unit) => are_roots(r@, unit.shapes),
                None => r@.len() == 0,
            },
    {
        let mut r: Vec<i64> = Vec::new();
        if let Some(unit) = &self.unit {
            let ghost all = unit@.shapes;
            let mut i: usize = 0;
            while i < unit.shapes.len()
                invariant
                    i <= unit.shapes@.len(),
                    all == views(unit.shapes@),
                    are_roots(r@, all.take(i as int)),
                decreases unit.shapes@.len() - i,
            {
                let root: i64 = unit.shapes[i].root;
                let ghost before = r@;
                let ghost past = all.take(i as int);
                let ghost now = all.take(i + 1);
                assert(all[i as int].root == root);
                assert(now[i as int].root == root);
                if !holds_root(&r, root) {
                    r.push(root);
                    assert(r@[before.len() as int] == root);
                }
                assert(are_roots(r@, now)) by {
                    assert forall|k: int| 0 <= k < now.len() implies r@.contains(
                        (#[trigger] now[k]).root,
                    ) by {
                        if k < i {
                            assert(past[k] == now[k]);
                            let j = choose|j: int| 0 <= j < before.len() && before[j] == now[k].root;
                            assert(r@[j] == now[k].root);
                        }
                    }
                    assert forall|k: int| 0 <= k < r@.len() implies has_root(now, #[trigger] r@[k]) by {
                        if k < before.len() {
                            assert(has_root(past, before[k]));
                            let j = choose|j: int|
                                0 <= j < past.len() && (#[trigger] past[j]).root == before[k];
                            assert(now[j] == past[j]);
                        } else {
                            assert(now[i as int].root == r@[k]);
                        }
                    }
                }
                i = i + 1;
            }
            assert(all.take(i as int) =~= all);
        }
        r
    }

    /// What a statement made of the table at `root`: its name and columns now,
    /// or nothing where it dropped the table.
    pub fn note_table(&mut self, root: i64, becomes: Option<Renamed>)
        requires
            old(self).wf(),
        ensures
            final(self).wf(),
            match old(self)@.unit {
                Some(unit) => final(self)@ == old(self)@.with_unit(
                    Some(unit.moved(root, renamed_view(becomes))),
                ),
                None => final(self)@ == old(self)@,
            },
    {
        if let Some(mut unit) = self.unit.take() {
            let ghost before = unit@;
            let ok: bool = match &becomes {
                Some(to) => is_shaped(&to.info),
                None => true,
            };
            if ok {
                let rows: usize = unit.rows.len();
                unit.moves.push(TableMove { rows, root, becomes });
                assert(unit@.moves =~= before.moves.push(
                    Move { rows: rows as nat, root, becomes: renamed_view(becomes) },
                ));
                assert(all_shaped(unit@.moves)) by {
                    assert forall|i: int| 0 <= i < unit@.moves.len() implies ((
                    #[trigger] unit@.moves[i]).becomes matches Some((_, table)) ==> shaped(
                        table,
                    )) by {
                        if i < before.moves.len() {
                            assert(unit@.moves[i] == before.moves[i]);
                        }
                    }
                }
            } else {
                unit.poisoned = true;
            }
            assert(unit@ =~= before.moved(root, renamed_view(becomes)));
            self.unit = Some(unit);
        }
        assert(old(self)@.unit is Some ==> self@ =~= old(self)@.with_unit(self@.unit));
    }

    /// Whether the open unit's changes cannot be told, so that its commit makes
    /// no record.
    pub fn is_lost(&self) -> (r: bool)
        ensures
            r == (self@.unit matches Some(unit) && unit.lost()),
    {
        match &self.unit {
            Some(unit) => {
                assert(unit@.rows.len() == unit.rows@.len());
                assert(unit@.shapes.len() == unit.shapes@.len());
                unit.poisoned || unit.shapes.len() < unit.rows.len()
            },
            None => false,
        }
    }
}

/// The transaction that changes make, before it has its LSN.
pub open spec fn record_of(changes: Changes, commit_ts_ms: i64) -> Tx {
    Tx { lsn: 0, commit_ts_ms, rows: changes.rows, ddl: changes.ddl }
}

/// The transaction that a unit's changes make, before it has its LSN.
pub fn transaction(changes: FinalizeResult, commit_ts_ms: i64) -> (r: Transaction)
    ensures
        r@ == record_of(changes@, commit_ts_ms),
{
    Transaction { lsn: 0, commit_ts_ms, rows: changes.rows, ddl: changes.ddl }
}

// ---------------------------------------------------------------------------
// Around a statement
// ---------------------------------------------------------------------------

impl Captured {
    /// A statement is about to run; a unit that begins takes that schema
    /// version.
    pub open spec fn started(self, sql: Seq<char>, version: i64) -> Captured {
        self.begun(version).recorded(sql)
    }

    /// A statement ran.
    pub open spec fn ran(self, sql: Seq<char>) -> Captured {
        let state = if nesting(sql) is Back {
            self.forgetful()
        } else {
            self
        };
        match self.unit {
            Some(unit) => state.with_unit(Some(unit.ran(sql))),
            None => state,
        }
    }

    /// The connection is outside a transaction, at that schema version.
    pub open spec fn settled(self, version: i64) -> Captured {
        match self.unit {
            Some(unit) => {
                let unit = Unit { latest: version, ..unit };
                // No commit happened: a unit without row events was read-only.
                self.with_unit(
                    if !self.commit_pending && unit.rows.len() == 0 {
                        None
                    } else {
                        Some(unit)
                    },
                )
            },
            None => self,
        }
    }
}

impl Captured {
    /// A statement ran: outside a transaction the connection is at that schema
    /// version.
    pub open spec fn left(self, version: Option<i64>) -> Captured {
        match version {
            Some(v) => self.settled(v),
            None => self,
        }
    }

    /// Whether a commit happened, so that the unit is to be finalized.
    pub open spec fn commits(self, version: Option<i64>) -> bool {
        version is Some && self.commit_pending
    }

    /// The commit hook was called.
    pub open spec fn committing(self) -> Captured {
        Captured { commit_pending: true, ..self }
    }

    /// The rollback hook was called.
    pub open spec fn rolled_back(self) -> Captured {
        self.forgetful().with_unit(None)
    }

    /// The open unit is ended.
    pub open spec fn ended(self) -> Captured {
        Captured { unit: None, commit_pending: false, ..self }
    }

    /// What the open unit changed, if anything, and the state once it is ended.
    pub open spec fn finalized(self) -> (Option<Changes>, Captured) {
        match self.unit {
            None => (None, self),
            Some(unit) => (unit_changes(unit), self.ended()),
        }
    }
}

impl Capture {
    /// Whether the next statement opens a unit, and so needs to know the
    /// schema version.
    pub fn opens_unit(&self) -> (r: bool)
        ensures
            r == (self@.unit is None),
    {
        self.unit.is_none()
    }

    /// A statement is about to run. `version` is the schema version, for a
    /// unit that it opens.
    pub fn start_statement(&mut self, sql: &str, version: i64)
        requires
            old(self).wf(),
        ensures
            final(self).wf(),
            final(self)@ == old(self)@.started(sql@, version),
    {
        self.begin_unit(version);
        self.record_statement(sql);
    }

    /// A statement ran. Where the connection is outside a transaction,
    /// `version` is its schema version. The result tells whether a commit
    /// happened, so that the unit is to be finalized; else a unit that is
    /// empty is closed, so that read-only statements keep none open.
    pub fn after_success(&mut self, sql: &str, version: Option<i64>) -> (r: bool)
        requires
            old(self).wf(),
        ensures
            final(self).wf(),
            ({
                let ran = old(self)@.ran(sql@);
                final(self)@ == ran.left(version) && r == ran.commits(version)
            }),
    {
        if let Some(mut unit) = self.unit.take() {
            proof {
                unit_stays_sound(unit@, sql@, arbitrary());
            }
            unit.statement_ran(sql);
            self.unit = Some(unit);
        }
        if let SavepointStep::Back(_) = savepoint_step(sql) {
            self.schema.clear();
        }
        assert(self@ =~= old(self)@.ran(sql@));
        let ghost ran = self@;
        match version {
            Some(v) => {
                if let Some(mut unit) = self.unit.take() {
                    unit.latest_schema_version = v;
                    if self.commit_pending || unit.rows.len() > 0 {
                        self.unit = Some(unit);
                    }
                }
                assert(self@ =~= ran.settled(v));
                self.commit_pending
            },
            None => false,
        }
    }
}

/// A statement that fails inside a transaction leaves no trace, whatever rows
/// it had changed: neither its row events nor the statement itself is emitted.
pub proof fn failed_statement_leaves_no_trace(unit: Unit, sql: Seq<char>, rows: Seq<Raw>)
    requires
        unit.shapes.len() <= unit.rows.len(),
    ensures
        ({
            let ran = unit.recorded(sql);
            let failed = (Unit { rows: ran.rows + rows, ..ran }).failed(false);
            &&& failed.rows == unit.rows
            &&& failed.shapes == unit.shapes
            &&& failed.moves == unit.moves
            &&& failed.stmts == unit.stmts
            &&& unit_changes(failed) == unit_changes(unit)
        }),
{
    let ran = unit.recorded(sql);
    let failed = (Unit { rows: ran.rows + rows, ..ran }).failed(false);
    assert((ran.rows + rows).take(unit.rows.len() as int) =~= unit.rows);
    assert(failed.stmts =~= unit.stmts);
    assert(failed.shapes =~= unit.shapes);
}

/// The row changes of a transaction's statements gather in one unit, in order,
/// so that the transaction makes one record.
pub proof fn transaction_gathers_in_one_unit(
    state: Captured,
    unit: Unit,
    sql: Seq<char>,
    version: i64,
    rows: Seq<Raw>,
)
    requires
        state.unit == Some(unit),
        nesting(sql) is Nothing,
    ensures
        state.started(sql, version).with_rows(rows).ran(sql) == state.with_unit(
            Some(Unit { rows: unit.rows + rows, ..unit.recorded(sql) }),
        ),
    decreases rows.len(),
{
    let ran = unit.recorded(sql);
    if rows.len() == 0 {
        assert(unit.rows + rows =~= unit.rows);
    } else {
        transaction_gathers_in_one_unit(state, unit, sql, version, rows.drop_last());
        assert((unit.rows + rows.drop_last()).push(rows.last()) =~= unit.rows + rows);
    }
}

/// What was captured before a rollback is never emitted: the transaction that
/// was rolled back makes no record.
pub proof fn rollback_emits_nothing(state: Captured, sql: Seq<char>, version: i64)
    ensures
        state.forgetful().with_unit(None).ran(sql).settled(version).unit is None,
{
}

/// What ran since a savepoint leaves nothing once it is rolled back: the unit
/// is as it was at the savepoint, which stays open.
pub proof fn savepoint_rollback_restores(
    unit: Unit,
    name: Seq<char>,
    rows: Seq<Raw>,
    shapes: Seq<Table>,
    moves: Seq<Move>,
    stmts: Seq<Seq<char>>,
    inner: Seq<Mark>,
)
    requires
        unit.shapes.len() == unit.rows.len(),
        forall|i: int| 0 <= i < inner.len() ==> (#[trigger] inner[i]).name != name,
    ensures
        ({
            let at = unit.saved(name);
            let later = Unit {
                rows: at.rows + rows,
                shapes: at.shapes + shapes,
                moves: at.moves + moves,
                stmts: at.stmts + stmts,
                savepoints: at.savepoints + inner,
                ..at
            };
            later.rolled_back_to(name) == at
        }),
    decreases inner.len(),
{
    let at = unit.saved(name);
    innermost_behind(at.savepoints, inner, name);
    assert((at.rows + rows).take(unit.rows.len() as int) =~= unit.rows);
    assert((at.shapes + shapes).take(unit.rows.len() as int) =~= unit.shapes);
    assert((at.moves + moves).take(unit.moves.len() as int) =~= unit.moves);
    assert((at.stmts + stmts).take(unit.stmts.len() as int) =~= unit.stmts);
    assert((at.savepoints + inner).take(at.savepoints.len() as int) =~= at.savepoints);
}

proof fn innermost_behind(marks: Seq<Mark>, inner: Seq<Mark>, name: Seq<char>)
    requires
        marks.len() > 0,
        marks.last().name == name,
        forall|i: int| 0 <= i < inner.len() ==> (#[trigger] inner[i]).name != name,
    ensures
        innermost(marks + inner, name) == Some((marks.len() - 1) as nat),
    decreases inner.len(),
{
    if inner.len() == 0 {
        assert(marks + inner =~= marks);
    } else {
        assert(inner.last().name != name);
        innermost_behind(marks, inner.drop_last(), name);
        assert((marks + inner).drop_last() =~= marks + inner.drop_last());
    }
}

/// Releasing a savepoint keeps what was done in it.
pub proof fn release_keeps_changes(unit: Unit, name: Seq<char>)
    ensures
        unit.released(name).rows == unit.rows,
        unit.released(name).shapes == unit.shapes,
        unit.released(name).moves == unit.moves,
        unit.released(name).stmts == unit.stmts,
        unit.saved(name).released(name) == unit,
{
    assert(unit.savepoints.push(unit.saved(name).savepoints.last()).take(
        unit.savepoints.len() as int,
    ) =~= unit.savepoints);
}

/// A rollback to a savepoint that the unit does not know makes no record.
pub proof fn untraced_rollback_makes_no_record(unit: Unit, name: Seq<char>)
    requires
        innermost(unit.savepoints, name) is None,
    ensures
        unit_changes(unit.rolled_back_to(name)) is None,
{
}

/// A read-only statement outside a transaction keeps no unit open.
pub proof fn read_only_statement_leaves_no_unit(
    state: Captured,
    sql: Seq<char>,
    version: i64,
    after: i64,
)
    requires
        state.unit is None,
        !state.commit_pending,
    ensures
        nesting(sql) is Nothing ==> state.started(sql, version).ran(sql).settled(after) == state,
        state.started(sql, version).ran(sql).settled(after).unit is None,
{
}

/// Statements that control transactions are never emitted as schema changes.
pub proof fn control_statements_are_not_emitted(unit: Unit, sql: Seq<char>)
    requires
        controls_txn(sql),
    ensures
        unit.recorded(sql).stmts == unit.stmts,
        unit_ddl(unit.recorded(sql)) == unit_ddl(unit),
{
}

/// Schema changes hold no statement that only reads or changes rows: those
/// are emitted as row events alone.
pub proof fn row_statements_are_not_replayed(stmts: Seq<Seq<char>>)
    ensures
        forall|i: int|
            0 <= i < schema_statements(stmts).len() ==> !only_rows(
                #[trigger] schema_statements(stmts)[i],
            ),
    decreases stmts.len(),
{
    if stmts.len() > 0 {
        row_statements_are_not_replayed(stmts.drop_last());
        assert forall|i: int| 0 <= i < schema_statements(stmts).len() implies !only_rows(
            #[trigger] schema_statements(stmts)[i],
        ) by {
            let before = schema_statements(stmts.drop_last());
            if i < before.len() {
                assert(before[i] == schema_statements(stmts)[i]);
            }
        }
    }
}

/// A commit that changed neither rows nor the schema makes no record, and so
/// takes no LSN.
pub proof fn read_only_commit_makes_no_record(unit: Unit)
    requires
        unit.rows.len() == 0,
        unit.at_start == unit.latest,
    ensures
        unit_changes(unit) is None,
{
}

/// A captured text has the bytes that are stored, whether they are UTF-8 or
/// not.
pub proof fn captured_text_keeps_its_bytes(text: Vec<u8>)
    ensures
        match cell_scalar(Cell::Text(text)) {
            Scalar::Text(s) => encode_utf8(s) == text@,
            Scalar::RawText(b) => b == text@,
            _ => false,
        },
{
    if valid_utf8(text@) {
        vstd::utf8::decode_utf8_encode_utf8(text@);
    }
}

} // verus!
