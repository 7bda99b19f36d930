use replite::binlog::{Append, Binlog, Op, Recovery, TableInfo, Transaction, Value as LogValue};
use replite::capture::{
    alters_tables, finalize_unit, sqlite_value_to_value, transaction, Capture, RawEvent,
};
use replite::change::Renamed;
use replite::error::StmtError;
use replite::executor::{stmt_result, Cell, Prepared, Sequence};
use replite::hrana::proto::StmtResult;
use replite::sync::{can_render_all, real_bits, tx_statements};
use rand::rngs::StdRng;
use rand::{RngExt, SeedableRng};
use rusqlite::types::ValueRef;
use rusqlite::Connection;
use std::collections::{BTreeMap, HashMap};

/// A row's identity and its values.
type Rows = BTreeMap<Vec<String>, (i64, Vec<Cell>)>;

fn table_info(conn: &Connection, table: &str) -> TableInfo {
    let sql = "SELECT rootpage FROM sqlite_schema WHERE type = 'table' AND name = ?1";
    let root = conn.query_row(sql, [table], |r| r.get(0)).unwrap_or(0);
    let mut info = TableInfo { root, columns: vec![], is_pk: vec![], generated: vec![] };
    let quoted = replite::sql::quote_ident(table);
    let mut stmt = conn.prepare(&format!("PRAGMA table_xinfo({quoted})")).unwrap();
    let mut rows = stmt.query([]).unwrap();
    while let Some(row) = rows.next().unwrap() {
        info.columns.push(row.get(1).unwrap());
        info.is_pk.push(row.get::<_, i64>(5).unwrap() > 0);
        info.generated.push(row.get::<_, i64>(6).unwrap() > 0);
    }
    info
}

fn table_at(conn: &Connection, root: i64) -> Option<String> {
    let sql = "SELECT name FROM sqlite_schema WHERE type = 'table' AND rootpage = ?1";
    conn.query_row(sql, [root], |r| r.get(0)).ok()
}

/// What a statement made of the tables of changed rows is looked up.
fn look_up(conn: &Connection, capture: &mut Capture, sql: &str, version: i64) {
    if !capture.wants_schema(sql) {
        return;
    }
    for table in capture.unknown_tables(version) {
        capture.schema.get(version, &table, |t| table_info(conn, t));
    }
    capture.resolve(version);
    if alters_tables(sql) {
        for root in capture.roots() {
            let becomes =
                table_at(conn, root).map(|name| Renamed { info: table_info(conn, &name), name });
            capture.note_table(root, becomes);
        }
    }
}

fn table_names(conn: &Connection) -> Vec<String> {
    let sql = "SELECT name FROM sqlite_master WHERE type = 'table' ORDER BY name";
    let mut stmt = conn.prepare(sql).unwrap();
    let names = stmt.query_map([], |r| r.get(0)).unwrap();
    names.map(|n| n.unwrap()).collect()
}

/// The rows of a table, by rowid where it has one, else by its key.
fn rows_of(conn: &Connection, table: &str) -> Rows {
    let quoted = replite::sql::quote_ident(table);
    let TableInfo { columns, is_pk, .. } = table_info(conn, table);
    let by_rowid = conn.prepare(&format!("SELECT rowid, * FROM {quoted}"));
    let (mut stmt, first) = match by_rowid {
        Ok(stmt) => (stmt, 1),
        Err(_) => (conn.prepare(&format!("SELECT * FROM {quoted}")).unwrap(), 0),
    };
    let mut found = Rows::new();
    let mut rows = stmt.query([]).unwrap();
    while let Some(row) = rows.next().unwrap() {
        let values: Vec<Cell> =
            (0..columns.len()).map(|i| cell(row.get_ref(i + first).unwrap())).collect();
        let (rowid, key) = if first == 1 {
            let rowid: i64 = row.get(0).unwrap();
            (rowid, vec![format!("{rowid:020}")])
        } else {
            let key = values.iter().zip(&is_pk).filter(|(_, pk)| **pk);
            (0, key.map(|(v, _)| format!("{v:?}")).collect())
        };
        found.insert(key, (rowid, values));
    }
    found
}

fn all_rows(conn: &Connection) -> BTreeMap<String, Rows> {
    table_names(conn).into_iter().map(|t| (t.clone(), rows_of(conn, &t))).collect()
}

fn cell(v: ValueRef) -> Cell {
    match v {
        ValueRef::Null => Cell::Null,
        ValueRef::Integer(i) => Cell::Integer(i),
        ValueRef::Real(f) => Cell::Real(f.to_bits()),
        ValueRef::Text(b) => Cell::Text(b.to_vec()),
        ValueRef::Blob(b) => Cell::Blob(b.to_vec()),
    }
}

fn image(values: &[Cell]) -> Vec<LogValue> {
    let copies = values.iter().map(|v| match v {
        Cell::Null => Cell::Null,
        Cell::Integer(i) => Cell::Integer(*i),
        Cell::Real(bits) => Cell::Real(*bits),
        Cell::Text(b) => Cell::Text(b.clone()),
        Cell::Blob(b) => Cell::Blob(b.clone()),
    });
    copies.map(sqlite_value_to_value).collect()
}

/// The row changes between two states of a table, as hook calls report them.
/// One row that left where one came is a row whose identity was updated.
fn reported(table: &str, before: &Rows, after: &Rows, updates: bool) -> Vec<RawEvent> {
    let gone: Vec<_> = before.iter().filter(|(k, _)| !after.contains_key(*k)).collect();
    let come: Vec<_> = after.iter().filter(|(k, _)| !before.contains_key(*k)).collect();
    let event = |op, rowid, after, old: Option<&Vec<Cell>>, new: Option<&Vec<Cell>>| RawEvent {
        table: table.into(),
        op,
        rowid: Some(rowid),
        new_rowid: if op == Op::Delete { None } else { Some(after) },
        new_row: new.map(|v| image(v)),
        old_row: old.map(|v| image(v)),
    };
    let mut events = vec![];
    for (key, (rowid, new)) in after {
        if let Some((_, old)) = before.get(key) {
            if old != new {
                events.push(event(Op::Update, *rowid, *rowid, Some(old), Some(new)));
            }
        }
    }
    if updates && gone.len() == 1 && come.len() == 1 {
        let (old, new) = (&gone[0].1 .1, &come[0].1 .1);
        events.push(event(Op::Update, gone[0].1 .0, come[0].1 .0, Some(old), Some(new)));
        return events;
    }
    for (_, (rowid, old)) in gone {
        events.push(event(Op::Delete, *rowid, *rowid, Some(old), None));
    }
    for (_, (rowid, new)) in come {
        events.push(event(Op::Insert, *rowid, *rowid, None, Some(new)));
    }
    events
}

struct Primary {
    conn: Connection,
    capture: Capture,
    log: Binlog,
    files: Vec<Vec<u8>>,
}

impl Primary {
    fn new() -> Primary {
        Primary {
            conn: Connection::open_in_memory().unwrap(),
            capture: Capture::new(0),
            log: Binlog::open(Recovery::new(vec![]), 512, 1 << 20),
            files: vec![],
        }
    }

    fn schema_version(&self) -> i64 {
        self.conn.query_row("PRAGMA schema_version", [], |r| r.get(0)).unwrap()
    }

    fn run(&mut self, sql: &str) -> Result<StmtResult, StmtError> {
        let was_autocommit = self.conn.is_autocommit();
        let version = self.schema_version();
        self.capture.start_statement(sql, if was_autocommit { version } else { 0 });
        let before = all_rows(&self.conn);
        if let Err(e) = self.conn.execute_batch(sql) {
            self.capture.rollback_statement(self.conn.is_autocommit());
            return Err(StmtError::new("SQLITE_ERROR", &e.to_string()));
        }
        let after = all_rows(&self.conn);
        let schema_changed = self.schema_version() != version;
        let mut wrote = schema_changed || !was_autocommit;
        if !schema_changed && !sql.starts_with("ROLLBACK") {
            for (table, rows) in &after {
                let updates = sql.starts_with("UPDATE");
                for event in reported(table, &before[table], rows, updates) {
                    self.capture.record_row(event);
                    wrote = true;
                }
            }
        }
        let autocommit = self.conn.is_autocommit();
        if autocommit && wrote {
            self.capture.note_commit();
        }
        let version = self.schema_version();
        look_up(&self.conn, &mut self.capture, sql, version);
        if self.capture.after_success(sql, if autocommit { Some(version) } else { None }) {
            self.finalize();
        }
        Ok(stmt_result(vec![], vec![], self.conn.changes(), self.conn.last_insert_rowid(), 0))
    }

    fn finalize(&mut self) {
        assert!(!self.capture.is_lost());
        let changes = match finalize_unit(&mut self.capture) {
            Some(changes) => changes,
            None => return,
        };
        if let Append::Write { rotate, record, .. } = self.log.append(transaction(changes, 7)) {
            if rotate {
                self.log.close_segment();
                self.log.rotate(0);
                self.files.push(vec![]);
            }
            self.log.committed(record.len() as u64);
            self.files.last_mut().unwrap().extend(record);
        }
    }

    fn run_all(&mut self, stmts: &[&str]) {
        for text in stmts {
            if !self.conn.is_autocommit() {
                self.conn.execute_batch("ROLLBACK").unwrap();
                self.capture.drop_unit();
            }
            let mut sequence = Sequence::new(text);
            while let Some(rest) = sequence.pending() {
                let consumed = rest.find(';').map(|i| i + 1).unwrap_or(rest.len());
                let outcome = Ok(Prepared::Statement { consumed, text: None });
                if let Some(sql) = sequence.prepared(outcome) {
                    let outcome = self.run(&sql);
                    sequence.ran(outcome);
                }
            }
        }
    }

    fn txs(&self) -> Vec<Transaction> {
        self.log.read_since(&self.files, 0).unwrap()
    }
}

fn apply(conn: &Connection, tx: &Transaction) {
    let reals: HashMap<u64, String> =
        real_bits(tx).into_iter().map(|b| (b, f64::from_bits(b).to_string())).collect();
    assert!(can_render_all(tx, &reals));
    conn.execute_batch("BEGIN").unwrap();
    for sql in tx_statements(tx, &reals) {
        conn.execute_batch(&sql).unwrap();
    }
    conn.execute_batch("COMMIT").unwrap();
}

fn schema(conn: &Connection) -> Vec<(String, Option<String>)> {
    let mut stmt = conn.prepare("SELECT name, sql FROM sqlite_master ORDER BY name").unwrap();
    let rows = stmt.query_map([], |r| Ok((r.get(0)?, r.get(1)?))).unwrap();
    rows.map(|r| r.unwrap()).collect()
}

/// Runs the statements on a primary, applies its log to a replica and compares
/// the two. Returns how many rows and schema changes each record has.
fn expect_converge(stmts: &[&str]) -> Vec<(usize, usize)> {
    let mut primary = Primary::new();
    primary.run_all(stmts);
    let replica = Connection::open_in_memory().unwrap();
    let txs = primary.txs();
    for (i, tx) in txs.iter().enumerate() {
        assert_eq!(tx.lsn, i as u64 + 1);
        apply(&replica, tx);
    }
    assert_eq!(schema(&replica), schema(&primary.conn));
    assert_eq!(all_rows(&replica), all_rows(&primary.conn));
    // Records without schema changes can be applied again.
    let last_ddl = txs.iter().rposition(|tx| !tx.ddl.is_empty()).map(|i| i + 1).unwrap_or(0);
    for tx in &txs[last_ddl..] {
        apply(&replica, tx);
    }
    assert_eq!(all_rows(&replica), all_rows(&primary.conn));
    txs.iter().map(|tx| (tx.rows.len(), tx.ddl.len())).collect()
}

#[test]
fn savepoint_rollback_to() {
    let records = expect_converge(&[
        "CREATE TABLE t (id INTEGER PRIMARY KEY, v TEXT)",
        "INSERT INTO t VALUES (1, 'a')",
        "BEGIN; INSERT INTO t VALUES (2, 'b'); SAVEPOINT s; UPDATE t SET v = 'c' WHERE id = 2; ROLLBACK TO s; COMMIT;",
    ]);
    assert_eq!(records, vec![(0, 1), (1, 0), (1, 0)]);
}

#[test]
fn non_utf8_text() {
    expect_converge(&[
        "CREATE TABLE t (id INTEGER PRIMARY KEY, v TEXT)",
        "INSERT INTO t VALUES (1, CAST(X'fffe' AS TEXT))",
    ]);
}

#[test]
fn update_primary_key() {
    let records = expect_converge(&[
        "CREATE TABLE t (id INTEGER PRIMARY KEY, v TEXT)",
        "INSERT INTO t VALUES (1, 'a')",
        "UPDATE t SET id = 2 WHERE id = 1",
    ]);
    assert_eq!(records, vec![(0, 1), (1, 0), (2, 0)]);
}

#[test]
fn ddl_event_includes_dml() {
    let records = expect_converge(&[
        "CREATE TABLE t (v TEXT)",
        "INSERT INTO t VALUES ('a')",
        "BEGIN; INSERT INTO t VALUES ('b'); CREATE INDEX idx_t_v ON t(v); COMMIT;",
    ]);
    assert_eq!(records, vec![(0, 1), (1, 0), (1, 1)]);
}

#[test]
fn drop_table_in_same_transaction() {
    let records = expect_converge(&[
        "CREATE TABLE t (id INTEGER PRIMARY KEY, v TEXT)",
        "INSERT INTO t VALUES (1, 'a')",
        "BEGIN; INSERT INTO t VALUES (2, 'b'); DROP TABLE t; COMMIT;",
    ]);
    assert_eq!(records, vec![(0, 1), (1, 0), (0, 1)]);
}

#[test]
fn columns_added_after_rows() {
    let records = expect_converge(&[
        "CREATE TABLE t (id INTEGER PRIMARY KEY, v TEXT)",
        "BEGIN; INSERT INTO t VALUES (1, 'a'); ALTER TABLE t ADD COLUMN c INTEGER DEFAULT 7; COMMIT;",
        "BEGIN; INSERT INTO t VALUES (2, 'b', 8); ALTER TABLE t ADD COLUMN d TEXT; UPDATE t SET d = 'x' WHERE id = 1; COMMIT;",
    ]);
    assert_eq!(records, vec![(0, 1), (1, 1), (2, 1)]);
}

#[test]
fn tables_renamed_after_rows() {
    let records = expect_converge(&[
        "CREATE TABLE t (id INTEGER PRIMARY KEY, v TEXT)",
        "INSERT INTO t VALUES (1, 'a')",
        "BEGIN; INSERT INTO t VALUES (2, 'b'); ALTER TABLE t RENAME TO u; DELETE FROM u WHERE id = 1; ALTER TABLE u RENAME COLUMN v TO w; COMMIT;",
    ]);
    assert_eq!(records, vec![(0, 1), (1, 0), (2, 1)]);
}

#[test]
fn columns_dropped_after_rows() {
    expect_converge(&[
        "CREATE TABLE t (id INTEGER PRIMARY KEY, v TEXT, w TEXT)",
        "BEGIN; INSERT INTO t VALUES (2, 'b', 'c'); ALTER TABLE t DROP COLUMN v; INSERT INTO t VALUES (3, 'd'); COMMIT;",
    ]);
    expect_converge(&[
        "CREATE TABLE t (a TEXT, id INTEGER PRIMARY KEY, b TEXT)",
        "BEGIN; INSERT INTO t VALUES ('x', 1, 'y'); ALTER TABLE t ADD COLUMN c TEXT DEFAULT 'z'; ALTER TABLE t DROP COLUMN a; ALTER TABLE t RENAME COLUMN b TO d; ALTER TABLE t RENAME TO u; INSERT INTO u VALUES (2, 'p', 'q'); COMMIT;",
    ]);
}

#[test]
fn tables_made_anew_after_rows() {
    let records = expect_converge(&[
        "CREATE TABLE t (id INTEGER PRIMARY KEY, v TEXT)",
        "INSERT INTO t VALUES (1, 'a')",
        "BEGIN; INSERT INTO t VALUES (2, 'b'); DROP TABLE t; CREATE TABLE t (x TEXT PRIMARY KEY); INSERT INTO t VALUES ('c'); COMMIT;",
    ]);
    assert_eq!(records, vec![(0, 1), (1, 0), (1, 1)]);
}

#[test]
fn renames_that_are_rolled_back() {
    let records = expect_converge(&[
        "CREATE TABLE t (id INTEGER PRIMARY KEY, v TEXT)",
        "BEGIN; INSERT INTO t VALUES (1, 'a'); SAVEPOINT s; ALTER TABLE t RENAME TO u; INSERT INTO u VALUES (2, 'b'); ROLLBACK TO s; COMMIT;",
        "BEGIN; INSERT INTO t VALUES (3, 'c'); SAVEPOINT s; DROP TABLE t; ROLLBACK TO s; COMMIT;",
    ]);
    assert_eq!(records, vec![(0, 1), (1, 0), (1, 0)]);
}

#[test]
fn generated_columns_are_computed_again() {
    expect_converge(&[
        "CREATE TABLE t (id INTEGER PRIMARY KEY, v TEXT, w TEXT GENERATED ALWAYS AS (v || '!') STORED, x)",
        "INSERT INTO t (id, v, x) VALUES (1, 'a', 5)",
        "UPDATE t SET v = 'b' WHERE id = 1",
    ]);
}

#[test]
fn tables_without_a_key_go_by_rowid() {
    let records = expect_converge(&[
        "CREATE TABLE t (v TEXT)",
        "INSERT INTO t (rowid, v) VALUES (100, 'a')",
        "INSERT INTO t (rowid, v) VALUES (200, 'b')",
        "DELETE FROM t WHERE rowid = 100",
        "UPDATE t SET v = 'c'",
        "UPDATE t SET rowid = 7",
    ]);
    assert_eq!(records, vec![(0, 1), (1, 0), (1, 0), (1, 0), (1, 0), (2, 0)]);
}

#[test]
fn tables_without_a_key_altered_after_rows() {
    let records = expect_converge(&[
        "CREATE TABLE t (a TEXT, b TEXT)",
        "INSERT INTO t VALUES ('x', 'y')",
        "BEGIN; INSERT INTO t VALUES ('p', 'q'); CREATE INDEX i ON t(b); UPDATE t SET a = 'z' WHERE rowid = 1; ALTER TABLE t ADD COLUMN c INTEGER DEFAULT 3; INSERT INTO t VALUES ('r', 's', 4); ALTER TABLE t RENAME TO u; ALTER TABLE u DROP COLUMN a; DELETE FROM u WHERE rowid = 2; COMMIT;",
        "BEGIN; INSERT INTO u VALUES ('m', 5); CREATE TABLE v (k TEXT PRIMARY KEY); INSERT INTO v VALUES ('n'); DROP TABLE u; ALTER TABLE v RENAME COLUMN k TO l; COMMIT;",
    ]);
    assert_eq!(records, vec![(0, 1), (1, 0), (4, 1), (1, 1)]);
}

#[test]
fn rows_replaced_before_columns_are_added() {
    expect_converge(&[
        "CREATE TABLE t (id INTEGER PRIMARY KEY, v TEXT)",
        "INSERT INTO t VALUES (1, 'a')",
        "BEGIN; REPLACE INTO t VALUES (1, 'b'); ALTER TABLE t ADD COLUMN c TEXT DEFAULT 'd'; COMMIT;",
    ]);
}

#[test]
fn texts_with_nul_are_kept() {
    expect_converge(&[
        "CREATE TABLE t (id INTEGER PRIMARY KEY, v TEXT)",
        "INSERT INTO t VALUES (1, CAST(X'6100620063' AS TEXT))",
    ]);
}

#[test]
fn failed_schema_statements_are_not_replayed() {
    expect_converge(&[
        "CREATE TABLE t (id INTEGER PRIMARY KEY)",
        "BEGIN; CREATE TABLE u (a)",
        "BEGIN; CREATE INDEX i ON t (id)",
        "CREATE TABLE w (a)",
    ]);
    let mut primary = Primary::new();
    primary.run("CREATE TABLE t (id INTEGER PRIMARY KEY)").unwrap();
    primary.run("BEGIN").unwrap();
    primary.run("CREATE TABLE t (a)").unwrap_err();
    primary.run("CREATE TABLE u (a)").unwrap();
    primary.run("COMMIT").unwrap();
    assert_eq!(primary.txs()[1].ddl[0].statements, vec!["CREATE TABLE u (a)"]);
}

#[test]
fn basic_crud_and_schema() {
    expect_converge(&[
        "CREATE TABLE t (id INTEGER PRIMARY KEY, v TEXT NOT NULL, n REAL DEFAULT 0)",
        "INSERT INTO t (id, v, n) VALUES (1, 'alpha', 1.5), (2, 'beta', -2.25)",
        "UPDATE t SET v = 'alpha2', n = 10.0 WHERE id = 1",
        "INSERT INTO t (id, v, n) VALUES (3, 'gamma', NULL)",
        "CREATE INDEX idx_t_v ON t (v)",
        "DELETE FROM t WHERE id = 2",
        "UPDATE t SET n = NULL WHERE id = 3",
    ]);
}

#[test]
fn alter_add_column_mid_stream() {
    expect_converge(&[
        "CREATE TABLE t (id INTEGER PRIMARY KEY, v TEXT)",
        "INSERT INTO t (id, v) VALUES (1, 'a'), (2, 'b')",
        "ALTER TABLE t ADD COLUMN extra INTEGER DEFAULT 0",
        "UPDATE t SET extra = 42 WHERE id = 1",
        "INSERT INTO t (id, v, extra) VALUES (3, 'c', 7)",
        "ALTER TABLE t ADD COLUMN note TEXT DEFAULT ''",
        "UPDATE t SET note = 'hi' WHERE id = 2",
        "DELETE FROM t WHERE id = 3",
    ]);
}

#[test]
fn explicit_transaction_block() {
    let records = expect_converge(&[
        "CREATE TABLE t (id INTEGER PRIMARY KEY, v TEXT)",
        "BEGIN; INSERT INTO t (id, v) VALUES (1, 'a'); INSERT INTO t (id, v) VALUES (2, 'b'); UPDATE t SET v = 'a2' WHERE id = 1; COMMIT;",
        "INSERT INTO t (id, v) VALUES (3, 'c')",
        "BEGIN; DELETE FROM t WHERE id = 2; COMMIT;",
    ]);
    assert_eq!(records, vec![(0, 1), (3, 0), (1, 0), (1, 0)]);
}

#[test]
fn without_rowid_composite() {
    expect_converge(&[
        "CREATE TABLE t (a TEXT, b TEXT, v INTEGER, PRIMARY KEY (a, b)) WITHOUT ROWID",
        "INSERT INTO t (a, b, v) VALUES ('x', 'y', 1), ('x', 'z', 2), ('w', 'y', 3)",
        "UPDATE t SET v = 10 WHERE a = 'x' AND b = 'y'",
        "DELETE FROM t WHERE a = 'w' AND b = 'y'",
        "INSERT INTO t (a, b, v) VALUES ('x', 'z', 20)",
        "DELETE FROM t WHERE a = 'x' AND b = 'z'",
        "INSERT INTO t (a, b, v) VALUES ('x', 'y', 100)",
    ]);
}

#[test]
fn blobs_nulls_reals() {
    expect_converge(&[
        "CREATE TABLE t (id INTEGER PRIMARY KEY, b BLOB, n REAL, v TEXT)",
        "INSERT INTO t (id, b, n, v) VALUES (1, X'deadbeef', 0.5, NULL)",
        "INSERT INTO t (id, b, n, v) VALUES (2, X'', -0.0, 'x')",
        "INSERT INTO t (id, b, n, v) VALUES (3, NULL, 1e300, 'y')",
        "UPDATE t SET b = X'00ff00', v = NULL WHERE id = 1",
        "DELETE FROM t WHERE id = 2",
    ]);
}

#[test]
fn two_tables_interleaved() {
    expect_converge(&[
        "CREATE TABLE a (id INTEGER PRIMARY KEY, v TEXT)",
        "CREATE TABLE b (id INTEGER PRIMARY KEY, v TEXT)",
        "INSERT INTO a (id, v) VALUES (1, 'a1')",
        "INSERT INTO b (id, v) VALUES (1, 'b1')",
        "INSERT INTO a (id, v) VALUES (2, 'a2')",
        "UPDATE b SET v = 'b1u' WHERE id = 1",
        "DELETE FROM a WHERE id = 1",
        "INSERT INTO b (id, v) VALUES (2, 'b2')",
        "CREATE INDEX idx_b_v ON b (v)",
        "UPDATE a SET v = 'a2u' WHERE id = 2",
    ]);
}

// ---------------------------------------------------------------------------
// Random sequences
// ---------------------------------------------------------------------------

#[derive(Clone, Copy, PartialEq)]
enum ColKind {
    Int,
    Text,
    Real,
    Blob,
}

#[derive(Clone)]
struct Col {
    name: String,
    kind: ColKind,
    not_null: bool,
}

#[derive(Clone)]
struct Table {
    name: String,
    cols: Vec<Col>,
    pk: Vec<usize>,
    without_rowid: bool,
}

fn create_table(rng: &mut StdRng, n: u32) -> Table {
    match rng.random_range(0..3) {
        // rowid table, integer PK
        0 => Table {
            name: format!("t{n}"),
            cols: vec![
                Col { name: "id".into(), kind: ColKind::Int, not_null: true },
                Col { name: "v".into(), kind: ColKind::Text, not_null: false },
                Col { name: "n".into(), kind: ColKind::Real, not_null: false },
                Col { name: "b".into(), kind: ColKind::Blob, not_null: false },
            ],
            pk: vec![0],
            without_rowid: false,
        },
        // WITHOUT ROWID, composite text PK
        1 => Table {
            name: format!("t{n}"),
            cols: vec![
                Col { name: "a".into(), kind: ColKind::Text, not_null: true },
                Col { name: "b".into(), kind: ColKind::Text, not_null: true },
                Col { name: "v".into(), kind: ColKind::Int, not_null: false },
            ],
            pk: vec![0, 1],
            without_rowid: true,
        },
        // rowid table with NOT NULL column
        _ => Table {
            name: format!("t{n}"),
            cols: vec![
                Col { name: "id".into(), kind: ColKind::Int, not_null: true },
                Col { name: "v".into(), kind: ColKind::Text, not_null: true },
                Col { name: "n".into(), kind: ColKind::Int, not_null: false },
            ],
            pk: vec![0],
            without_rowid: false,
        },
    }
}

fn create_table_sql(t: &Table) -> String {
    let mut defs: Vec<String> = Vec::new();
    for (i, c) in t.cols.iter().enumerate() {
        let typ = match c.kind {
            ColKind::Int => "INTEGER",
            ColKind::Text => "TEXT",
            ColKind::Real => "REAL",
            ColKind::Blob => "BLOB",
        };
        let mut d = format!("{} {}", c.name, typ);
        if !t.without_rowid && t.pk == vec![i] {
            d.push_str(" PRIMARY KEY");
        }
        if c.not_null {
            d.push_str(" NOT NULL");
        }
        defs.push(d);
    }
    if t.without_rowid {
        let pk: Vec<String> = t.pk.iter().map(|&i| t.cols[i].name.clone()).collect();
        defs.push(format!("PRIMARY KEY ({})", pk.join(", ")));
    }
    let tail = if t.without_rowid { " WITHOUT ROWID" } else { "" };
    format!("CREATE TABLE {} ({}){}", t.name, defs.join(", "), tail)
}

const WORDS: &[&str] = &[
    "alpha", "beta", "gamma", "delta", "epsilon", "zeta", "eta", "theta", "iota", "kappa",
    "x", "y", "foo", "bar", "baz", "one", "two", "three",
];

fn literal(rng: &mut StdRng, col: &Col) -> String {
    let null_p = if col.not_null { 0.0 } else { 0.15 };
    if rng.random_bool(null_p) {
        return "NULL".into();
    }
    match col.kind {
        ColKind::Int => {
            if rng.random_bool(0.15) {
                rng.random::<i64>().to_string()
            } else {
                rng.random_range(-1000..=1000).to_string()
            }
        }
        ColKind::Text => {
            let n = rng.random_range(1..=3);
            let words: Vec<String> = (0..n)
                .map(|_| WORDS[rng.random_range(0..WORDS.len())].to_string())
                .collect();
            format!("'{}'", words.join(" "))
        }
        ColKind::Real => format!("{}", (rng.random::<f64>() - 0.5) * 2000.0),
        ColKind::Blob => {
            let n = rng.random_range(0..=16);
            let mut s = String::from("X'");
            for _ in 0..n {
                s.push_str(&format!("{:02x}", rng.random_range(0..=255u8)));
            }
            s.push('\'');
            s
        }
    }
}

fn pk_values(rng: &mut StdRng, t: &Table) -> Vec<String> {
    t.pk.iter().map(|&i| literal(rng, &t.cols[i])).collect()
}

fn pk_where(t: &Table, vals: &[String]) -> String {
    t.pk.iter()
        .zip(vals)
        .map(|(&i, v)| format!("{} = {v}", t.cols[i].name))
        .collect::<Vec<_>>()
        .join(" AND ")
}

fn insert_sql(rng: &mut StdRng, t: &Table) -> String {
    let names: Vec<String> = t.cols.iter().map(|c| c.name.clone()).collect();
    let rows: Vec<String> = (0..rng.random_range(1..=3))
        .map(|_| {
            let vals: Vec<String> = t.cols.iter().map(|c| literal(rng, c)).collect();
            format!("({})", vals.join(", "))
        })
        .collect();
    format!(
        "INSERT INTO {} ({}) VALUES {}",
        t.name,
        names.join(", "),
        rows.join(", ")
    )
}

fn update_sql(rng: &mut StdRng, t: &Table) -> String {
    // Never update PK columns.
    let non_pk: Vec<usize> = (0..t.cols.len()).filter(|i| !t.pk.contains(i)).collect();
    assert!(!non_pk.is_empty());
    let idx = non_pk[rng.random_range(0..non_pk.len())];
    let col = t.cols[idx].clone();
    let v = literal(rng, &col);
    format!(
        "UPDATE {} SET {} = {} WHERE {}",
        t.name,
        col.name,
        v,
        pk_where(t, &pk_values(rng, t))
    )
}

fn delete_sql(rng: &mut StdRng, t: &Table) -> String {
    format!(
        "DELETE FROM {} WHERE {}",
        t.name,
        pk_where(t, &pk_values(rng, t))
    )
}

fn select_sql(rng: &mut StdRng, t: &Table) -> String {
    let c = &t.cols[rng.random_range(0..t.cols.len())];
    format!("SELECT {} FROM {}", c.name, t.name)
}

fn alter_sql(rng: &mut StdRng, t: &mut Table, n: u32) -> String {
    let name = format!("c{n}");
    let kind = match rng.random_range(0..3) {
        0 => ColKind::Int,
        1 => ColKind::Text,
        _ => ColKind::Real,
    };
    let (typ, default) = match kind {
        ColKind::Int => ("INTEGER", "0"),
        ColKind::Text => ("TEXT", "''"),
        ColKind::Real => ("REAL", "0.0"),
        ColKind::Blob => ("BLOB", "X''"),
    };
    t.cols.push(Col { name: name.clone(), kind, not_null: false });
    format!("ALTER TABLE {} ADD COLUMN {} {} DEFAULT {}", t.name, name, typ, default)
}

fn index_sql(rng: &mut StdRng, t: &Table, n: u32) -> String {
    let c = &t.cols[rng.random_range(0..t.cols.len())];
    format!("CREATE INDEX idx_{n} ON {} ({})", t.name, c.name)
}

/// Generate a random sequence of `n` statements. DDL never lands inside an
/// explicit transaction block (keeps "one source transaction = one record"
/// clean); transaction blocks contain only DML.
fn generate_sequence(rng: &mut StdRng, n: usize) -> Vec<String> {
    let mut tables: Vec<Table> = Vec::new();
    let mut tbl_n = 0u32;
    let mut col_n = 0u32;
    let mut idx_n = 0u32;
    let mut out: Vec<String> = Vec::new();
    let mut txn_open = false;
    let mut pending: Vec<String> = Vec::new();

    // The first statement always creates a table.
    let t0 = create_table(rng, tbl_n);
    tbl_n += 1;
    out.push(create_table_sql(&t0));
    tables.push(t0);

    while out.len() < n {
        // Maybe open a transaction block.
        if !txn_open && rng.random_bool(0.05) {
            pending.push("BEGIN".into());
            txn_open = true;
            continue;
        }
        // Maybe close it (BEGIN; ...; COMMIT as one pipeline element, so the
        // statements share one connection, like @libsql/client's batch).
        if txn_open && rng.random_bool(0.4) {
            pending.push("COMMIT".into());
            let joined = format!("{};", pending.join("; "));
            out.push(joined);
            pending.clear();
            txn_open = false;
            continue;
        }

        let roll = rng.random_range(0..100);
        let sql: String = if txn_open {
            // DML only inside transaction blocks.
            let i = rng.random_range(0..tables.len());
            let t = &tables[i];
            match roll {
                0..=69 => insert_sql(rng, t),
                70..=89 => update_sql(rng, t),
                _ => delete_sql(rng, t),
            }
        } else if roll < 10 {
            let t = create_table(rng, tbl_n);
            tbl_n += 1;
            let sql = create_table_sql(&t);
            tables.push(t);
            sql
        } else if roll < 14 {
            let i = rng.random_range(0..tables.len());
            let sql = alter_sql(rng, &mut tables[i], col_n);
            col_n += 1;
            sql
        } else if roll < 17 {
            let i = rng.random_range(0..tables.len());
            let sql = index_sql(rng, &tables[i], idx_n);
            idx_n += 1;
            sql
        } else if roll < 62 {
            let i = rng.random_range(0..tables.len());
            insert_sql(rng, &tables[i])
        } else if roll < 78 {
            let i = rng.random_range(0..tables.len());
            update_sql(rng, &tables[i])
        } else if roll < 90 {
            let i = rng.random_range(0..tables.len());
            delete_sql(rng, &tables[i])
        } else {
            let i = rng.random_range(0..tables.len());
            select_sql(rng, &tables[i])
        };

        if txn_open {
            pending.push(sql);
        } else {
            out.push(sql);
        }
    }

    if txn_open {
        pending.push("COMMIT".into());
        out.push(format!("{};", pending.join("; ")));
    }
    out
}

#[test]
fn random_sequences_converge() {
    for seed in 0..30 {
        let mut rng = StdRng::seed_from_u64(seed);
        let stmts = generate_sequence(&mut rng, 40);
        let texts: Vec<&str> = stmts.iter().map(|s| s.as_str()).collect();
        let records = expect_converge(&texts);
        assert!(records.len() > 10, "seed {seed}");
    }
}
