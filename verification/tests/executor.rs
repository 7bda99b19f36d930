use replite::binlog::{Append, Binlog, Op, Recovery, TableInfo, Transaction, Value as LogValue};
use replite::capture::{
    alters_tables, finalize_unit, hook_op, is_row_statement, is_txn_control, savepoint_step,
    sqlite_value_to_value, transaction, unit_stats, value_debug, wants_image, Capture, CaptureUnit,
    PreupdateValue, RawEvent, SavepointStep,
};
use replite::change::Renamed;
use replite::error::{ErrorCode, SqliteError, StmtError};
use replite::executor::{
    bind_args, bound_cell, check_statement, describe, prepare_error, stmt_result,
    value_ref_to_hrana, Bound, Cell, Prepared, Sequence, Splitter, StmtArgs,
};
use replite::hrana::proto::{DescribeParam, NamedArg, StmtResult, Value};
use rusqlite::types::Value as RValue;
use rusqlite::Connection;
use std::collections::HashMap;

fn table_info(conn: &Connection, table: &str) -> TableInfo {
    let sql = "SELECT rootpage FROM sqlite_schema WHERE type = 'table' AND name = ?1";
    let root = conn.query_row(sql, [table], |r| r.get(0)).unwrap_or(0);
    let mut info = TableInfo { root, columns: vec![], is_pk: vec![], generated: vec![] };
    let quoted = replite::sql::quote_ident(table);
    let mut stmt = conn.prepare(&format!("PRAGMA table_xinfo({quoted})")).unwrap();
    let mut rows = stmt.query([]).unwrap();
    while let Some(row) = rows.next().unwrap() {
        info.columns.push(row.get(1).unwrap());
        info.is_pk.push(row.get::<_, i64>(5).unwrap() > 0);
        info.generated.push(row.get::<_, i64>(6).unwrap() > 0);
    }
    info
}

fn table_at(conn: &Connection, root: i64) -> Option<String> {
    let sql = "SELECT name FROM sqlite_schema WHERE type = 'table' AND rootpage = ?1";
    conn.query_row(sql, [root], |r| r.get(0)).ok()
}

/// What a statement made of the tables of changed rows is looked up.
fn look_up(conn: &Connection, capture: &mut Capture, sql: &str, version: i64) {
    if !capture.wants_schema(sql) {
        return;
    }
    for table in capture.unknown_tables(version) {
        capture.schema.get(version, &table, |t| table_info(conn, t));
    }
    capture.resolve(version);
    if alters_tables(sql) {
        for root in capture.roots() {
            let becomes =
                table_at(conn, root).map(|name| Renamed { info: table_info(conn, &name), name });
            capture.note_table(root, becomes);
        }
    }
}

/// A primary: SQLite, with the row changes reported by the test in place of
/// its hook, and the binlog in memory.
struct Primary {
    conn: Connection,
    capture: Capture,
    log: Binlog,
    files: Vec<Vec<u8>>,
}

fn fresh_db() -> Primary {
    Primary {
        conn: Connection::open_in_memory().unwrap(),
        capture: Capture::new(0),
        log: Binlog::open(Recovery::new(vec![]), 1024, 10_000),
        files: vec![],
    }
}

fn sqlite_error(e: &rusqlite::Error) -> SqliteError {
    let code = match e.sqlite_error_code() {
        Some(rusqlite::ErrorCode::ConstraintViolation) => Some(ErrorCode::ConstraintViolation),
        Some(_) => Some(ErrorCode::Unknown),
        None => None,
    };
    let detail = match e {
        rusqlite::Error::SqliteFailure(_, msg) => msg.clone(),
        _ => None,
    };
    SqliteError { code, no_rows: false, detail, text: e.to_string() }
}

fn bound_value(v: &Value) -> RValue {
    match bound_cell(v) {
        Cell::Null => RValue::Null,
        Cell::Integer(i) => RValue::Integer(i),
        Cell::Real(bits) => RValue::Real(f64::from_bits(bits)),
        Cell::Text(b) => RValue::Text(String::from_utf8(b).unwrap()),
        Cell::Blob(b) => RValue::Blob(b),
    }
}

impl Primary {
    fn schema_version(&self) -> i64 {
        self.conn.query_row("PRAGMA schema_version", [], |r| r.get(0)).unwrap()
    }

    fn run_inner(&mut self, sql: &str, args: &StmtArgs) -> Result<StmtResult, StmtError> {
        check_statement(sql)?;
        let mut stmt = self.conn.prepare(sql).map_err(|e| {
            prepare_error(matches!(e, rusqlite::Error::MultipleStatement), &sqlite_error(&e))
        })?;
        let names: Vec<Option<String>> = (1..=stmt.parameter_count())
            .map(|i| stmt.parameter_name(i).map(|s| s.to_string()))
            .collect();
        for (i, bound) in bind_args(&names, args)?.iter().enumerate() {
            let value = match bound {
                Bound::Positional(k) => &args.args[*k],
                Bound::Named(k) => &args.named_args[*k].value,
            };
            stmt.raw_bind_parameter(i + 1, bound_value(value)).unwrap();
        }
        let mut query = stmt.raw_query();
        loop {
            match query.next() {
                Ok(Some(_)) => {}
                Ok(None) => break,
                Err(e) => return Err(StmtError::from_sqlite(&sqlite_error(&e))),
            }
        }
        let changed = self.conn.changes();
        let rowid = self.conn.last_insert_rowid();
        Ok(stmt_result(vec![], vec![], changed, rowid, 0))
    }

    /// Runs a statement; `rows` are the changes its hook calls report.
    fn run_with(
        &mut self,
        sql: &str,
        args: &StmtArgs,
        rows: Vec<RawEvent>,
    ) -> Result<StmtResult, StmtError> {
        let version = if self.conn.is_autocommit() { self.schema_version() } else { 0 };
        self.capture.start_statement(sql, version);
        for row in rows {
            self.capture.record_row(row);
        }
        let before = (self.conn.total_changes(), self.schema_version(), self.conn.is_autocommit());
        match self.run_inner(sql, args) {
            Ok(result) => {
                let wrote = self.conn.total_changes() != before.0
                    || self.schema_version() != before.1
                    || !before.2;
                if sql == "ROLLBACK" {
                    assert!(self.capture.note_rollback());
                } else if self.conn.is_autocommit() && wrote {
                    self.capture.note_commit();
                }
                self.after_success(sql);
                Ok(result)
            }
            Err(e) => {
                self.capture.rollback_statement(self.conn.is_autocommit());
                Err(e)
            }
        }
    }

    fn after_success(&mut self, sql: &str) {
        let version = self.schema_version();
        look_up(&self.conn, &mut self.capture, sql, version);
        let settled = if self.conn.is_autocommit() { Some(version) } else { None };
        if !self.capture.after_success(sql, settled) {
            return;
        }
        assert!(!self.capture.is_lost());
        if let Some(changes) = finalize_unit(&mut self.capture) {
            match self.log.append(transaction(changes, 1000)) {
                Append::Unchanged(_) => {}
                Append::Write { rotate, record, .. } => {
                    if rotate {
                        self.log.close_segment();
                        self.log.rotate(0);
                        self.files.push(vec![]);
                    }
                    self.log.committed(record.len() as u64);
                    self.files.last_mut().unwrap().extend(record);
                }
            }
        }
    }

    fn run(&mut self, sql: &str, rows: Vec<RawEvent>) -> Result<StmtResult, StmtError> {
        self.run_with(sql, &StmtArgs::empty(), rows)
    }

    fn read_txs(&self) -> Vec<Transaction> {
        self.log.read_since(&self.files, 0).unwrap()
    }
}

fn inserted(table: &str, rowid: i64, values: Vec<LogValue>) -> RawEvent {
    RawEvent {
        table: table.into(),
        op: Op::Insert,
        rowid: Some(rowid),
        new_rowid: Some(rowid),
        new_row: Some(values),
        old_row: None,
    }
}

fn updated(table: &str, rowid: i64, old: Vec<LogValue>, new: Vec<LogValue>) -> RawEvent {
    RawEvent {
        table: table.into(),
        op: Op::Update,
        rowid: Some(rowid),
        new_rowid: Some(rowid),
        new_row: Some(new),
        old_row: Some(old),
    }
}

fn deleted(table: &str, rowid: i64, values: Vec<LogValue>) -> RawEvent {
    RawEvent {
        table: table.into(),
        op: Op::Delete,
        rowid: Some(rowid),
        new_rowid: None,
        new_row: None,
        old_row: Some(values),
    }
}

fn pair(id: i64, v: &str) -> Vec<LogValue> {
    vec![LogValue::integer(id), LogValue::text(v)]
}

#[test]
fn insert_updates_binlog() {
    let mut handle = fresh_db();
    handle.run("CREATE TABLE t (id INTEGER PRIMARY KEY, v TEXT)", vec![]).unwrap();
    handle
        .run("INSERT INTO t (id, v) VALUES (1, 'hello')", vec![inserted("t", 1, pair(1, "hello"))])
        .unwrap();
    handle
        .run("INSERT INTO t (id, v) VALUES (2, 'world')", vec![inserted("t", 2, pair(2, "world"))])
        .unwrap();
    handle
        .run(
            "UPDATE t SET v = 'hello2' WHERE id = 1",
            vec![updated("t", 1, pair(1, "hello"), pair(1, "hello2"))],
        )
        .unwrap();
    handle.run("DELETE FROM t WHERE id = 2", vec![deleted("t", 2, pair(2, "world"))]).unwrap();

    let txs = handle.read_txs();
    assert_eq!(txs.len(), 5, "ddl + 2 inserts + update + delete");
    // tx1 = DDL
    assert_eq!(txs[0].ddl.len(), 1);
    assert_eq!(txs[0].ddl[0].statements.len(), 1);
    assert_eq!(txs[0].rows.len(), 0);
    // tx2 = insert
    let ev = &txs[1].rows[0];
    assert_eq!(ev.table, "t");
    assert_eq!(ev.op, Op::Insert.to_i32());
    assert_eq!(ev.columns, vec!["id", "v"]);
    assert_eq!(ev.pk_columns, vec!["id"]);
    assert_eq!(txs[2].rows[0].values.len(), 2);
    // tx4 = update: after-image only, values updated
    let upd = &txs[3].rows[0];
    assert_eq!(upd.op, Op::Update.to_i32());
    assert_eq!(upd.pk_columns, vec!["id"]);
    assert_eq!(upd.pk_values.len(), 0, "no pk values for update");
    assert_eq!(upd.values[1], LogValue::text("hello2"));
    // tx5 = delete: pk only
    let del = &txs[4].rows[0];
    assert_eq!(del.op, Op::Delete.to_i32());
    assert_eq!(del.pk_values, vec![LogValue::integer(2)]);
    assert!(del.columns.is_empty());
    assert!(del.values.is_empty());
}

#[test]
fn without_rowid_table() {
    let mut handle = fresh_db();
    handle
        .run("CREATE TABLE t (a TEXT, b TEXT, PRIMARY KEY (a, b)) WITHOUT ROWID", vec![])
        .unwrap();
    let row = || vec![LogValue::text("x"), LogValue::text("y")];
    handle.run("INSERT INTO t VALUES ('x', 'y')", vec![inserted("t", 0, row())]).unwrap();
    handle.run("DELETE FROM t WHERE a = 'x'", vec![deleted("t", 0, row())]).unwrap();
    let txs = handle.read_txs();
    let del = &txs[2].rows[0];
    assert_eq!(del.op, Op::Delete.to_i32());
    assert_eq!(del.pk_columns, vec!["a", "b"]);
    assert_eq!(del.pk_values, vec![LogValue::text("x"), LogValue::text("y")]);
}

#[test]
fn rollback_drops_events() {
    let mut handle = fresh_db();
    handle.run("CREATE TABLE t (id INTEGER PRIMARY KEY, v TEXT)", vec![]).unwrap();
    handle.run("BEGIN", vec![]).unwrap();
    handle
        .run("INSERT INTO t (id, v) VALUES (1, 'x')", vec![inserted("t", 1, pair(1, "x"))])
        .unwrap();
    handle.run("ROLLBACK", vec![]).unwrap();
    let txs = handle.read_txs();
    assert_eq!(txs.len(), 1, "only the DDL transaction");
}

#[test]
fn failed_statement_truncates_partial_events() {
    let mut handle = fresh_db();
    handle.run("CREATE TABLE t (id INTEGER PRIMARY KEY, v TEXT NOT NULL)", vec![]).unwrap();
    // Multi-row UPDATE where one row violates NOT NULL: the whole statement
    // rolls back, and no events must leak into the binlog.
    handle
        .run(
            "INSERT INTO t (id, v) VALUES (1, 'a'), (2, 'b')",
            vec![inserted("t", 1, pair(1, "a")), inserted("t", 2, pair(2, "b"))],
        )
        .unwrap();
    let partial = updated("t", 1, pair(1, "a"), vec![LogValue::integer(1), LogValue::null()]);
    let err = handle.run("UPDATE t SET v = NULL", vec![partial]).unwrap_err();
    assert!(err.message.contains("NOT NULL"), "got: {err:?}");
    assert_eq!(err.code, "SQLITE_CONSTRAINT");
    let txs = handle.read_txs();
    assert_eq!(txs.len(), 2, "DDL + insert; failed update must not appear");
    // A subsequent good statement must not contain the failed events.
    handle
        .run("INSERT INTO t (id, v) VALUES (3, 'c')", vec![inserted("t", 3, pair(3, "c"))])
        .unwrap();
    let txs = handle.read_txs();
    assert_eq!(txs.len(), 3);
    assert_eq!(txs[2].rows.len(), 1);
}

#[test]
fn named_and_positional_args() {
    let mut handle = fresh_db();
    let r = handle
        .run_with(
            "SELECT :a + ?1 AS total",
            &StmtArgs {
                args: vec![Value::integer(40)],
                named_args: vec![NamedArg { name: "a".into(), value: Value::integer(2) }],
            },
            vec![],
        )
        .unwrap_err();
    assert!(r.message.contains("both positional and named"));
}

#[test]
fn failed_statement_inside_a_transaction_keeps_the_others() {
    let mut handle = fresh_db();
    handle.run("CREATE TABLE t (id INTEGER PRIMARY KEY, v TEXT NOT NULL)", vec![]).unwrap();
    handle.run("BEGIN", vec![]).unwrap();
    handle.run("INSERT INTO t VALUES (1, 'a')", vec![inserted("t", 1, pair(1, "a"))]).unwrap();
    handle
        .run("INSERT INTO t VALUES (2, NULL)", vec![inserted("t", 2, pair(2, "?"))])
        .unwrap_err();
    handle.run("COMMIT", vec![]).unwrap();
    let txs = handle.read_txs();
    assert_eq!(txs.len(), 2);
    assert_eq!(txs[1].rows.len(), 1);
    assert_eq!(txs[1].rows[0].values, pair(1, "a"));
}

#[test]
fn read_only_statements_leave_nothing() {
    let mut handle = fresh_db();
    handle.run("SELECT 1", vec![]).unwrap();
    assert!(handle.capture.unit.is_none());
    handle.run("CREATE TABLE t (id INTEGER PRIMARY KEY, v TEXT)", vec![]).unwrap();
    let txs = handle.read_txs();
    assert_eq!(txs.len(), 1);
    assert_eq!(
        txs[0].ddl[0].statements,
        vec!["CREATE TABLE t (id INTEGER PRIMARY KEY, v TEXT)"]
    );
}

#[test]
fn ddl_holds_schema_statements_only() {
    let mut handle = fresh_db();
    handle.run("CREATE TABLE t (v TEXT)", vec![]).unwrap();
    handle.run("BEGIN;", vec![]).unwrap();
    let row = inserted("t", 1, vec![LogValue::text("b")]);
    handle.run("INSERT INTO t VALUES ('b')", vec![row]).unwrap();
    handle.run("/* why */ CREATE INDEX i ON t(v)", vec![]).unwrap();
    handle.run("COMMIT;", vec![]).unwrap();
    let txs = handle.read_txs();
    assert_eq!(txs.len(), 2);
    assert_eq!(txs[1].ddl[0].statements, vec!["/* why */ CREATE INDEX i ON t(v)"]);
    assert_eq!(txs[1].rows.len(), 1);
    assert_eq!(txs[1].rows[0].pk_columns, vec!["rowid"]);
}

#[test]
fn rows_of_a_dropped_table_go_with_it() {
    let mut handle = fresh_db();
    handle.run("CREATE TABLE t (id INTEGER PRIMARY KEY, v TEXT)", vec![]).unwrap();
    handle.run("BEGIN", vec![]).unwrap();
    handle.run("INSERT INTO t VALUES (2, 'b')", vec![inserted("t", 2, pair(2, "b"))]).unwrap();
    handle.run("DROP TABLE t", vec![]).unwrap();
    handle.run("COMMIT", vec![]).unwrap();
    let txs = handle.read_txs();
    assert_eq!(txs[1].ddl[0].statements, vec!["DROP TABLE t"]);
    assert!(txs[1].rows.is_empty());
}

#[test]
fn a_moved_key_is_removed_and_written() {
    let mut handle = fresh_db();
    handle.run("CREATE TABLE t (id INTEGER PRIMARY KEY, v TEXT)", vec![]).unwrap();
    handle.run("INSERT INTO t VALUES (1, 'a')", vec![inserted("t", 1, pair(1, "a"))]).unwrap();
    handle
        .run("UPDATE t SET id = 2", vec![updated("t", 1, pair(1, "a"), pair(2, "a"))])
        .unwrap();
    let txs = handle.read_txs();
    let rows = &txs[2].rows;
    assert_eq!(rows.len(), 2);
    assert_eq!(rows[0].op, Op::Delete.to_i32());
    assert_eq!(rows[0].pk_values, vec![LogValue::integer(1)]);
    assert_eq!(rows[1].op, Op::Insert.to_i32());
    assert_eq!(rows[1].values, pair(2, "a"));
}

#[test]
fn a_savepoint_rollback_forgets_what_followed() {
    let mut handle = fresh_db();
    handle.run("CREATE TABLE t (id INTEGER PRIMARY KEY, v TEXT)", vec![]).unwrap();
    handle.run("BEGIN", vec![]).unwrap();
    handle.run("INSERT INTO t VALUES (1, 'a')", vec![inserted("t", 1, pair(1, "a"))]).unwrap();
    handle.run("SAVEPOINT outer_one", vec![]).unwrap();
    handle.run("INSERT INTO t VALUES (2, 'b')", vec![inserted("t", 2, pair(2, "b"))]).unwrap();
    handle.run("SAVEPOINT inner_one", vec![]).unwrap();
    handle.run("CREATE TABLE gone (a)", vec![]).unwrap();
    handle.run("INSERT INTO t VALUES (3, 'c')", vec![inserted("t", 3, pair(3, "c"))]).unwrap();
    handle.run("ROLLBACK TO \"Inner_One\"", vec![]).unwrap();
    handle.run("RELEASE inner_one", vec![]).unwrap();
    handle.run("INSERT INTO t VALUES (4, 'd')", vec![inserted("t", 4, pair(4, "d"))]).unwrap();
    handle.run("RELEASE SAVEPOINT outer_one", vec![]).unwrap();
    handle.run("COMMIT", vec![]).unwrap();
    let txs = handle.read_txs();
    assert_eq!(txs.len(), 2);
    assert!(txs[1].ddl.is_empty());
    let values: Vec<_> = txs[1].rows.iter().map(|r| r.values.clone()).collect();
    assert_eq!(values, vec![pair(1, "a"), pair(2, "b"), pair(4, "d")]);
    assert!(handle.capture.unit.is_none());
}

#[test]
fn a_savepoint_alone_is_a_transaction() {
    let mut handle = fresh_db();
    handle.run("CREATE TABLE t (id INTEGER PRIMARY KEY, v TEXT)", vec![]).unwrap();
    handle.run("SAVEPOINT s", vec![]).unwrap();
    handle.run("INSERT INTO t VALUES (1, 'a')", vec![inserted("t", 1, pair(1, "a"))]).unwrap();
    handle.run("RELEASE s", vec![]).unwrap();
    assert_eq!(handle.read_txs()[1].rows.len(), 1);
}

#[test]
fn an_untraced_savepoint_rollback_drops_the_record() {
    let mut unit = CaptureUnit::begin(1);
    unit.rows.push(inserted("t", 1, pair(1, "a")));
    unit.statement_ran("SAVEPOINT s");
    unit.statement_ran("ROLLBACK TO s");
    assert!(!unit.poisoned);
    unit.statement_ran("RELEASE s");
    unit.statement_ran("ROLLBACK TO s");
    assert!(unit.poisoned);
    let mut capture = Capture::new(1);
    capture.unit = Some(unit);
    capture.commit_pending = true;
    assert!(finalize_unit(&mut capture).is_none());
    assert!(!capture.commit_pending);
}

#[test]
fn savepoint_statements_are_read() {
    let open = |n: &str| SavepointStep::Open(n.into());
    let back = |n: &str| SavepointStep::Back(n.into());
    assert_eq!(savepoint_step("SAVEPOINT s"), open("S"));
    assert_eq!(savepoint_step("savepoint[a b];"), open("A B"));
    assert_eq!(savepoint_step("SAVEPOINT 'it''s'"), open("IT'S"));
    assert_eq!(savepoint_step("SAVEPOINT `x`"), open("X"));
    assert_eq!(savepoint_step("SAVEPOINT caf\u{e9}$1;"), open("CAF\u{e9}$1"));
    assert_eq!(savepoint_step("RELEASE s"), SavepointStep::Close("S".into()));
    assert_eq!(savepoint_step("RELEASE SAVEPOINT s;"), SavepointStep::Close("S".into()));
    assert_eq!(savepoint_step("ROLLBACK TO s"), back("S"));
    assert_eq!(savepoint_step("rollback /*x*/ transaction to savepoint s"), back("S"));
    assert_eq!(savepoint_step("ROLLBACK TRANSACTION \"t\" TO s"), back("S"));
    for sql in ["ROLLBACK", "ROLLBACK TRANSACTION", "COMMIT", "SELECT 1", ""] {
        assert_eq!(savepoint_step(sql), SavepointStep::Nothing, "{sql}");
    }
}

#[test]
fn control_statements_are_told_apart() {
    for sql in ["BEGIN", "begin;", " COMMIT", "End", "ROLLBACK TO x", "SAVEPOINT s", "RELEASE s",
        "PRAGMA x=1", "-- c\nBEGIN IMMEDIATE", "/* c */ commit"]
    {
        assert!(is_txn_control(sql), "{sql}");
    }
    for sql in ["", "SELECT 1", "BEGINNING", "CREATE TABLE t (a)", "/* BEGIN"] {
        assert!(!is_txn_control(sql), "{sql}");
    }
    for sql in ["select 1", "INSERT INTO t", "Update t", "DELETE", "replace", "WITH x", "VALUES (1)",
        "explain x"]
    {
        assert!(is_row_statement(sql), "{sql}");
    }
    for sql in ["CREATE TABLE t (a)", "DROP TABLE t", "ALTER TABLE t", "ANALYZE", ""] {
        assert!(!is_row_statement(sql), "{sql}");
    }
}

#[test]
fn hook_opcodes_have_images() {
    assert_eq!(hook_op(18), Some(Op::Insert));
    assert_eq!(hook_op(23), Some(Op::Update));
    assert_eq!(hook_op(9), Some(Op::Delete));
    assert_eq!(hook_op(0), None);
    assert!(!wants_image(Op::Insert, PreupdateValue::Old));
    assert!(wants_image(Op::Insert, PreupdateValue::New));
    assert!(wants_image(Op::Update, PreupdateValue::Old));
    assert!(wants_image(Op::Update, PreupdateValue::New));
    assert!(wants_image(Op::Delete, PreupdateValue::Old));
    assert!(!wants_image(Op::Delete, PreupdateValue::New));
}

#[test]
fn units_are_counted_and_dropped() {
    let mut capture = Capture::new(1);
    assert_eq!(unit_stats(&capture), (0, 0));
    capture.record_row(inserted("t", 1, pair(1, "a")));
    assert_eq!(unit_stats(&capture), (0, 0));
    capture.begin_unit(1);
    capture.record_statement("INSERT");
    capture.record_row(inserted("t", 1, pair(1, "a")));
    assert_eq!(unit_stats(&capture), (1, 1));
    capture.begin_unit(2);
    assert_eq!(capture.unit.as_ref().unwrap().schema_version_at_start, 1);
    capture.note_commit();
    capture.drop_unit();
    assert!(!capture.commit_pending);
    assert_eq!(unit_stats(&capture), (0, 0));
    let mut unit = CaptureUnit::begin(3);
    unit.rows.push(inserted("t", 1, pair(1, "a")));
    unit.mark_statement_start();
    unit.rows.push(inserted("t", 2, pair(2, "b")));
    unit.rollback_statement(false);
    assert_eq!(unit.rows.len(), 1);
    unit.rollback_statement(true);
    assert_eq!(unit.rows.len(), 0);
}

fn two_columns(root: i64) -> TableInfo {
    TableInfo {
        root,
        columns: vec!["a".to_string(), "b".to_string()],
        is_pk: vec![false, true],
        generated: vec![false, false],
    }
}

#[test]
fn rows_that_do_not_fit_make_no_record() {
    let mut capture = Capture::new(1);
    capture.begin_unit(1);
    capture.record_row(deleted("t", 1, vec![LogValue::integer(1)]));
    assert!(capture.is_lost(), "the table is not known");
    assert!(capture.wants_schema("DELETE FROM t"));
    assert_eq!(capture.unknown_tables(1), vec!["t"]);
    capture.schema.get(1, "t", |_| two_columns(2));
    assert!(capture.unknown_tables(1).is_empty());
    capture.resolve(1);
    assert!(capture.unit.as_ref().unwrap().poisoned, "the row has one value");
    assert!(finalize_unit(&mut capture).is_none());
}

#[test]
fn rows_keep_the_columns_of_their_time() {
    let mut capture = Capture::new(1);
    capture.begin_unit(1);
    let row = vec![LogValue::integer(1), LogValue::integer(2)];
    capture.record_row(inserted("t", 1, row.clone()));
    capture.schema.get(1, "t", |_| two_columns(2));
    capture.resolve(1);
    assert_eq!(capture.roots(), vec![2]);
    let mut later = two_columns(2);
    later.columns.push("c".into());
    later.is_pk.push(false);
    later.generated.push(false);
    capture.note_table(2, Some(Renamed { name: "u".into(), info: later }));
    let event = finalize_unit(&mut capture).unwrap().rows.remove(0);
    assert_eq!(event.table, "u");
    assert_eq!(event.columns, vec!["a", "b"]);
    assert_eq!(event.values, row);
    assert_eq!(event.pk_columns, vec!["b"]);
}

#[test]
fn values_are_shown_in_words() {
    let mut reals = HashMap::new();
    reals.insert(1.5f64.to_bits(), "1.5".to_string());
    assert_eq!(value_debug(&LogValue::null(), &reals), "NULL");
    assert_eq!(value_debug(&LogValue::integer(-3), &reals), "-3");
    assert_eq!(value_debug(&LogValue::float(1.5f64.to_bits()), &reals), "1.5");
    assert_eq!(value_debug(&LogValue::text("a\"b"), &reals), "a\"b");
    assert_eq!(value_debug(&LogValue::blob(vec![1, 2]), &reals), "<blob 2 bytes>");
    assert_eq!(value_debug(&LogValue::raw_text(vec![0xff]), &reals), "<text 1 bytes>");
    assert_eq!(value_debug(&LogValue { value: None }, &reals), "UNKNOWN");
}

fn named(names: &[&str]) -> StmtArgs {
    StmtArgs {
        args: vec![],
        named_args: names
            .iter()
            .enumerate()
            .map(|(i, n)| NamedArg { name: n.to_string(), value: Value::integer(i as i64) })
            .collect(),
    }
}

fn positional(n: i64) -> StmtArgs {
    StmtArgs { args: (0..n).map(Value::integer).collect(), named_args: vec![] }
}

fn names(list: &[Option<&str>]) -> Vec<Option<String>> {
    list.iter().map(|n| n.map(|s| s.to_string())).collect()
}

#[test]
fn parameters_take_their_arguments() {
    assert_eq!(
        bind_args(&names(&[None, None]), &positional(2)).unwrap(),
        vec![Bound::Positional(0), Bound::Positional(1)]
    );
    assert_eq!(
        bind_args(&names(&[Some("?2"), Some("?1")]), &positional(2)).unwrap(),
        vec![Bound::Positional(1), Bound::Positional(0)]
    );
    assert_eq!(
        bind_args(&names(&[Some(":a"), Some("@b"), Some("$c")]), &named(&["c", "b", ":a", "a"]))
            .unwrap(),
        vec![Bound::Named(2), Bound::Named(1), Bound::Named(0)]
    );
    // the last of several arguments of one name counts
    assert_eq!(bind_args(&names(&[Some(":a")]), &named(&["a", "a"])).unwrap(), vec![Bound::Named(1)]);
    assert_eq!(bind_args(&names(&[]), &StmtArgs::empty()).unwrap(), vec![]);
}

#[test]
fn parameters_without_arguments_are_refused() {
    let message = |list: &[Option<&str>], args: StmtArgs| {
        let e = bind_args(&names(list), &args).unwrap_err();
        assert_eq!(e.code, "SQLITE_MISUSE");
        e.message
    };
    assert_eq!(
        message(&[None], positional(2)),
        "too many parameters, expected 1 found 2"
    );
    assert_eq!(message(&[None, None], positional(1)), "value for parameter 2 not found");
    assert_eq!(message(&[Some(":a")], named(&["b"])), "value for parameter :a not found");
    assert_eq!(message(&[Some("?3")], positional(1)), "value for parameter ?3 not found");
    assert_eq!(message(&[Some("?0")], positional(1)), "value for parameter ?0 not found");
    assert_eq!(
        message(&[Some("?x")], positional(1)),
        "invalid parameter ?x: expected a numerical position after `?`"
    );
}

#[test]
fn attach_is_refused() {
    let e = check_statement(" attach DATABASE 'x' AS y").unwrap_err();
    assert_eq!(e, StmtError::new("SQLITE_MISUSE", "ATTACH DATABASE is not supported"));
    assert!(check_statement("SELECT 'ATTACH'").is_ok());
    let mut handle = fresh_db();
    let e = handle.run("SELECT 1; SELECT 2", vec![]).unwrap_err();
    assert_eq!(e.message, "SQL string contains more than one statement");
    assert!(check_statement("/* a */ -- b\nATTACH 'x' AS y").is_err());
    assert!(check_statement("attached").is_err());
    assert!(check_statement("\u{a0}/* a */ATTACHED").is_err());
    assert!(check_statement("ATTAC").is_ok());
    assert!(check_statement("-- ATTACH 'x' AS y").is_ok());
}

#[test]
fn results_count_changed_rows() {
    let r = stmt_result(vec![], vec![], 2, 7, 1.0f64.to_bits());
    assert_eq!(r.last_insert_rowid, Some(7));
    assert_eq!((r.affected_row_count, r.rows_written, r.rows_read), (2, 2, 0));
    assert_eq!(stmt_result(vec![], vec![], 0, 7, 0).last_insert_rowid, None);
}

#[test]
fn explain_is_described() {
    let params = || vec![DescribeParam { name: Some(":a".into()) }];
    assert!(describe(" explain QUERY PLAN SELECT 1", params(), vec![], true).is_explain);
    let d = describe("SELECT :a", params(), vec![], true);
    assert!(!d.is_explain && d.is_readonly);
    assert_eq!(d.params, params());
}

/// Splits a text with a parser that ends statements at semicolons.
fn split(sql: &str) -> Vec<String> {
    let mut s = Splitter::new(sql);
    while let Some(text) = s.pending() {
        let outcome = if text.starts_with("--") {
            Prepared::Nothing
        } else {
            let consumed = text.find(';').map(|i| i + 1).unwrap_or(usize::MAX);
            Prepared::Statement { consumed, text: None }
        };
        if !s.prepared(outcome) {
            break;
        }
    }
    s.statements()
}

#[test]
fn texts_are_split_into_statements() {
    assert_eq!(split(""), Vec::<String>::new());
    assert_eq!(split("  \n"), Vec::<String>::new());
    assert_eq!(split("SELECT 1"), vec!["SELECT 1"]);
    assert_eq!(
        split(" CREATE TABLE t (a);\n INSERT INTO t VALUES ('\u{e9}'); -- end"),
        vec!["CREATE TABLE t (a);", "INSERT INTO t VALUES ('\u{e9}');"]
    );
    let mut s = Splitter::new("x");
    assert!(s.pending().is_some());
    assert!(!s.prepared(Prepared::Statement { consumed: 0, text: Some(" SELECT 2 ".into()) }));
    assert_eq!(s.statements(), vec!["SELECT 2"]);
}

#[test]
fn splitting_loses_nothing() {
    let sql = "SELECT '\u{e9}';SELECT 2;SELECT '\u{20ac}'";
    assert_eq!(split(sql).concat(), sql);
}

#[test]
fn bound_values_read_back() {
    let values = [
        Value::null(),
        Value::integer(i64::MIN),
        Value::float(0x7ff8_0000_0000_0001),
        Value::text("caf\u{e9}"),
        Value::blob(vec![0, 255]),
    ];
    for v in values {
        assert_eq!(value_ref_to_hrana(bound_cell(&v)), v);
    }
    assert_eq!(bound_cell(&Value::Unset), Cell::Null);
    assert_eq!(bound_cell(&Value::text("a\u{e9}")), Cell::Text(vec![97, 0xc3, 0xa9]));
}

#[test]
fn stored_values_are_captured() {
    assert_eq!(sqlite_value_to_value(Cell::Null), LogValue::null());
    assert_eq!(sqlite_value_to_value(Cell::Integer(-3)), LogValue::integer(-3));
    assert_eq!(sqlite_value_to_value(Cell::Real(7)), LogValue::float(7));
    assert_eq!(sqlite_value_to_value(Cell::Blob(vec![9])), LogValue::blob(vec![9]));
    assert_eq!(sqlite_value_to_value(Cell::Text(vec![0xc3, 0xa9])), LogValue::text("\u{e9}"));
    assert_eq!(sqlite_value_to_value(Cell::Text(vec![97, 0xff])), LogValue::raw_text(vec![97, 0xff]));
    assert_eq!(value_ref_to_hrana(Cell::Text(vec![97, 0xff])), Value::text("a\u{fffd}"));
}

#[test]
fn hook_calls_are_buffered_with_their_images() {
    let mut c = Capture::new(1);
    c.preupdate(18, 1, "main", "t".into(), 5, 5, vec![], vec![LogValue::integer(1)]);
    assert!(c.unit.is_none(), "no unit is open");
    c.begin_unit(1);
    let old = || vec![LogValue::integer(1)];
    let new = || vec![LogValue::integer(2)];
    c.preupdate(18, 0, "main", "t".into(), 5, 5, old(), new());
    c.preupdate(18, 1, "temp", "t".into(), 5, 5, old(), new());
    c.preupdate(7, 1, "main", "t".into(), 5, 5, old(), new());
    assert_eq!(unit_stats(&c), (0, 0));
    c.preupdate(18, 1, "main", "t".into(), 5, 5, old(), new());
    c.preupdate(23, 1, "main", "t".into(), 6, 8, old(), new());
    c.preupdate(9, 1, "main", "t".into(), 7, 7, old(), new());
    let unit = c.unit.as_ref().unwrap();
    let seen: Vec<_> = unit
        .rows
        .iter()
        .map(|r| (r.op, r.rowid, r.new_rowid, r.old_row.is_some(), r.new_row.is_some()))
        .collect();
    assert_eq!(
        seen,
        vec![
            (Op::Insert, Some(5), Some(5), false, true),
            (Op::Update, Some(6), Some(8), true, true),
            (Op::Delete, Some(7), None, true, false),
        ]
    );
}

#[test]
fn reading_transactions_take_no_lsn() {
    let mut handle = fresh_db();
    handle.run("CREATE TABLE t (id INTEGER PRIMARY KEY, v TEXT)", vec![]).unwrap();
    handle.run("BEGIN", vec![]).unwrap();
    handle.run("SELECT * FROM t", vec![]).unwrap();
    handle.run("COMMIT", vec![]).unwrap();
    assert_eq!(handle.read_txs().len(), 1);
    assert_eq!(handle.log.current_lsn(), 1);
}

/// Runs the statements of a text as SQLite's own parser splits them off.
fn run_sequence(handle: &mut Primary, sql: &str) -> (Vec<String>, Result<(), StmtError>) {
    let mut seq = Sequence::new(sql);
    let mut ran = vec![];
    while let Some(text) = seq.pending() {
        let end = text.find(';').map(|i| i + 1).unwrap_or(text.len());
        let outcome = match handle.conn.prepare(&text[..end]) {
            Ok(_) => Ok(Prepared::Statement { consumed: end, text: None }),
            Err(e) => Err(StmtError::from_sqlite(&sqlite_error(&e))),
        };
        if let Some(stmt) = seq.prepared(outcome) {
            let row = inserted("t", 1, vec![LogValue::integer(1)]);
            let rows = if stmt.starts_with("INSERT") { vec![row] } else { vec![] };
            let outcome = handle.run(&stmt, rows);
            ran.push(stmt);
            seq.ran(outcome);
        }
    }
    (ran, seq.finish())
}

#[test]
fn a_failure_ends_a_sequence() {
    let mut handle = fresh_db();
    let text = "CREATE TABLE t (a NOT NULL);INSERT INTO t VALUES (NULL);DROP TABLE t";
    let (ran, result) = run_sequence(&mut handle, text);
    assert_eq!(ran, vec!["CREATE TABLE t (a NOT NULL);", "INSERT INTO t VALUES (NULL);"]);
    assert_eq!(result.unwrap_err().code, "SQLITE_CONSTRAINT");
    let (ran, result) = run_sequence(&mut handle, "SELECT 1; SELECT * FROM nowhere; SELECT 2");
    assert_eq!(ran, vec!["SELECT 1;"]);
    assert_eq!(result.unwrap_err().code, "SQLITE_UNKNOWN");
    assert_eq!(run_sequence(&mut handle, " ").1, Ok(()));
}

#[test]
fn statements_of_a_text_see_what_came_before() {
    let mut handle = fresh_db();
    let text = "CREATE TABLE t (id INTEGER PRIMARY KEY); INSERT INTO t VALUES (1)";
    let (ran, result) = run_sequence(&mut handle, text);
    assert_eq!(result, Ok(()));
    assert_eq!(ran.len(), 2);
    let n: i64 = handle.conn.query_row("SELECT id FROM t", [], |r| r.get(0)).unwrap();
    assert_eq!(n, 1);
    assert_eq!(handle.read_txs().len(), 2);
}

#[test]
fn a_transaction_is_one_record() {
    let mut handle = fresh_db();
    handle.run("CREATE TABLE t (id INTEGER PRIMARY KEY, v TEXT)", vec![]).unwrap();
    handle.run("BEGIN", vec![]).unwrap();
    handle.run("INSERT INTO t VALUES (1, 'a')", vec![inserted("t", 1, pair(1, "a"))]).unwrap();
    handle.run("INSERT INTO t VALUES (2, 'b')", vec![inserted("t", 2, pair(2, "b"))]).unwrap();
    handle
        .run("UPDATE t SET v = 'c' WHERE id = 1", vec![updated("t", 1, pair(1, "a"), pair(1, "c"))])
        .unwrap();
    handle.run("COMMIT", vec![]).unwrap();
    let txs = handle.read_txs();
    assert_eq!(txs.len(), 2);
    let values: Vec<_> = txs[1].rows.iter().map(|r| r.values.clone()).collect();
    assert_eq!(values, vec![pair(1, "a"), pair(2, "b"), pair(1, "c")]);
}
