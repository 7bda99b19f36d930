use replite::binlog::segment::BinlogError;
use replite::binlog::{Append, Binlog, DdlEvent, Op, Recovery, RowEvent, Transaction, Value};
use replite::sql::{quote_ident, real_literal, sql_literal, starts_with};
use replite::sync::{
    can_render, can_render_all, error_event, info, open_stream, real_bits, record_event, row_sql,
    tx_event, tx_statements, BinlogQuery, InfoResponse, SyncEvent,
};
use rusqlite::types::Value as RValue;
use rusqlite::Connection;
use std::collections::HashMap;

/// The decimal forms of a transaction's doubles.
fn reals(tx: &Transaction) -> HashMap<u64, String> {
    real_bits(tx).into_iter().map(|b| (b, f64::from_bits(b).to_string())).collect()
}

fn statements(tx: &Transaction) -> Vec<String> {
    let reals = reals(tx);
    assert!(can_render_all(tx, &reals));
    tx_statements(tx, &reals)
}

fn literal(v: Value) -> String {
    let row = RowEvent {
        table: "t".into(),
        op: 0,
        pk_columns: vec![],
        pk_values: vec![],
        columns: vec![],
        values: vec![v.clone()],
    };
    let tx = Transaction { lsn: 0, commit_ts_ms: 0, rows: vec![row], ddl: vec![] };
    sql_literal(&v, &reals(&tx))
}

fn float(v: f64) -> Value {
    Value::float(v.to_bits())
}

fn tx(rows: Vec<RowEvent>, ddl: Vec<DdlEvent>) -> Transaction {
    Transaction { lsn: 0, commit_ts_ms: 0, rows, ddl }
}

fn insert_row(id: i64, v: Value) -> RowEvent {
    RowEvent {
        table: "t".into(),
        op: Op::Insert.to_i32(),
        pk_columns: vec!["id".into()],
        pk_values: vec![],
        columns: vec!["id".into(), "v".into()],
        values: vec![Value::integer(id), v],
    }
}

/// Renders the stream as per-tx statement lists and applies each transaction
/// atomically to a fresh in-memory db; returns it.
fn apply(stream: &[Transaction], schema: &str) -> Connection {
    let conn = Connection::open_in_memory().unwrap();
    conn.execute_batch(schema).unwrap();
    for tx in stream {
        let statements = statements(tx);
        if statements.is_empty() {
            continue;
        }
        conn.execute_batch("BEGIN IMMEDIATE").unwrap();
        for stmt in statements {
            conn.execute_batch(&stmt).unwrap();
        }
        conn.execute_batch("COMMIT").unwrap();
    }
    conn
}

fn dump_t(conn: &Connection) -> Vec<(i64, RValue)> {
    let mut stmt = conn.prepare("SELECT id, v FROM t ORDER BY id").unwrap();
    stmt.query_map([], |r| Ok((r.get(0)?, r.get(1)?)))
        .unwrap()
        .collect::<Result<_, _>>()
        .unwrap()
}

#[test]
fn renders_and_applies_dml() {
    let stream = [
        tx(
            vec![
                insert_row(1, Value::text("alice's \"quoted\"")),
                insert_row(2, Value::blob(vec![0xde, 0xad, 0xbe, 0xef])),
                insert_row(3, Value::null()),
                insert_row(4, float(1.0)),
            ],
            vec![],
        ),
        tx(
            vec![RowEvent {
                table: "t".into(),
                op: Op::Update.to_i32(),
                pk_columns: vec!["id".into()],
                pk_values: vec![],
                columns: vec!["id".into(), "v".into()],
                values: vec![Value::integer(1), Value::text("updated")],
            }],
            vec![],
        ),
        tx(
            vec![RowEvent {
                table: "t".into(),
                op: Op::Delete.to_i32(),
                pk_columns: vec!["id".into()],
                pk_values: vec![Value::integer(2)],
                columns: vec![],
                values: vec![],
            }],
            vec![],
        ),
    ];
    let conn = apply(&stream, "CREATE TABLE t (id INTEGER PRIMARY KEY, v);");
    let mut stmt = conn.prepare("SELECT id, typeof(v), v FROM t ORDER BY id").unwrap();
    let rows: Vec<(i64, String, RValue)> = stmt
        .query_map([], |r| Ok((r.get(0)?, r.get(1)?, r.get(2)?)))
        .unwrap()
        .collect::<Result<_, _>>()
        .unwrap();
    assert_eq!(
        rows,
        vec![
            (1, "text".into(), RValue::Text("updated".into())),
            (3, "null".into(), RValue::Null),
            // 1.0 stays a REAL (not an integer) on the replica.
            (4, "real".into(), RValue::Real(1.0)),
        ]
    );

    // Re-applying the whole stream must be idempotent (upserts): the client
    // may crash between apply and LSN persist.
    for tx in &stream {
        let statements = statements(tx);
        conn.execute_batch("BEGIN IMMEDIATE").unwrap();
        for stmt in statements {
            conn.execute_batch(&stmt).unwrap();
        }
        conn.execute_batch("COMMIT").unwrap();
    }
    assert_eq!(dump_t(&conn).len(), 3, "no phantom rows on re-apply");
}

#[test]
fn renders_ddl_verbatim() {
    let conn = apply(
        &[tx(
            vec![],
            vec![DdlEvent {
                statements: vec!["CREATE TABLE t (id INTEGER PRIMARY KEY, v TEXT)".into()],
            }],
        )],
        "",
    );
    let n: i64 = conn
        .query_row("SELECT count(*) FROM sqlite_master WHERE name = 't'", [], |r| r.get(0))
        .unwrap();
    assert_eq!(n, 1);
}

#[test]
fn literal_roundtrips() {
    assert_eq!(literal(Value::text("it's")), "'it''s'");
    assert_eq!(literal(Value::blob(vec![0x00, 0xff])), "X'00ff'");
    assert_eq!(literal(float(1.0)), "1.0");
    assert_eq!(literal(float(-0.0)), "-0.0");
    assert_eq!(literal(float(0.1)), "0.1");
    assert_eq!(literal(float(f64::INFINITY)), "9e999");
    assert_eq!(literal(Value::null()), "NULL");
    assert_eq!(literal(Value::integer(-7)), "-7");
    assert_eq!(quote_ident("weird\"name"), "\"weird\"\"name\"");
}

#[test]
fn rowid_fallback_and_multi_pk() {
    let conn = apply(
        &[tx(
            vec![
                RowEvent {
                    table: "x".into(),
                    op: Op::Delete.to_i32(),
                    pk_columns: vec!["rowid".into()],
                    pk_values: vec![Value::integer(7)],
                    columns: vec![],
                    values: vec![],
                },
                RowEvent {
                    table: "y".into(),
                    op: Op::Update.to_i32(),
                    pk_columns: vec!["a".into(), "b".into()],
                    pk_values: vec![],
                    columns: vec!["a".into(), "b".into(), "c".into()],
                    values: vec![Value::integer(1), Value::text("k"), Value::integer(99)],
                },
            ],
            vec![],
        )],
        "CREATE TABLE x (v); INSERT INTO x (v) VALUES (0); \
         CREATE TABLE y (a, b, c, PRIMARY KEY (a, b)); \
         INSERT INTO y (a, b, c) VALUES (1, 'k', 0);",
    );
    let n: i64 = conn
        .query_row("SELECT count(*) FROM x WHERE rowid = 7", [], |r| r.get(0))
        .unwrap();
    assert_eq!(n, 0);
    let c: i64 = conn
        .query_row("SELECT c FROM y WHERE a = 1 AND b = 'k'", [], |r| r.get(0))
        .unwrap();
    assert_eq!(c, 99);
}

#[test]
fn doubles_keep_their_bits() {
    let conn = Connection::open_in_memory().unwrap();
    for v in [0.1, -1.5, 1e300, 5e-324, 123456789012345680.0, 2.0, -3.0, f64::MAX, f64::MIN_POSITIVE]
    {
        let text = literal(float(v));
        let (got, kind): (f64, String) = conn
            .query_row(&format!("SELECT {text}, typeof({text})"), [], |r| {
                Ok((r.get(0)?, r.get(1)?))
            })
            .unwrap();
        assert_eq!(got.to_bits(), v.to_bits(), "{text}");
        assert_eq!(kind, "real");
    }
    assert_eq!(literal(float(f64::NAN)), "NULL");
    assert_eq!(literal(float(f64::NEG_INFINITY)), "-9e999");
    assert_eq!(literal(float(3e20)), "300000000000000000000.0");
    assert_eq!(real_literal(1.0f64.to_bits(), "1e0"), "1e0");
    assert_eq!(real_literal(1.0f64.to_bits(), "1E0"), "1E0");
}

#[test]
fn texts_read_back_from_their_literals() {
    let conn = Connection::open_in_memory().unwrap();
    for s in ["", "'", "''", "a'b''c", "'; DROP TABLE t; --", "\"x\"", "h\u{e9} \u{1f980}\n"] {
        let got: String = conn
            .query_row(&format!("SELECT {}", literal(Value::text(s))), [], |r| r.get(0))
            .unwrap();
        assert_eq!(got, s);
        conn.execute_batch(&format!("CREATE TABLE {} (a)", quote_ident(&format!("t{s}")))).unwrap();
        let n: i64 = conn
            .query_row("SELECT count(*) FROM sqlite_master WHERE name = ?1", [format!("t{s}")], |r| {
                r.get(0)
            })
            .unwrap();
        assert_eq!(n, 1);
    }
}

#[test]
fn statements_have_their_exact_text() {
    let none = HashMap::new();
    let insert = insert_row(1, Value::text("x"));
    assert_eq!(
        row_sql(&insert, &none),
        "INSERT INTO \"t\" (\"id\", \"v\") VALUES (1, 'x') ON CONFLICT(\"id\") \
         DO UPDATE SET \"v\" = excluded.\"v\";"
    );
    let mut key_only = insert_row(1, Value::null());
    key_only.columns.pop();
    key_only.values.pop();
    assert_eq!(
        row_sql(&key_only, &none),
        "INSERT INTO \"t\" (\"id\") VALUES (1) ON CONFLICT(\"id\") DO NOTHING;"
    );
    let mut update = insert_row(1, Value::text("x"));
    update.op = Op::Update.to_i32();
    assert_eq!(
        row_sql(&update, &none),
        "UPDATE \"t\" SET \"id\" = 1, \"v\" = 'x' WHERE \"id\" = 1;"
    );
    let delete = RowEvent {
        table: "t".into(),
        op: Op::Delete.to_i32(),
        pk_columns: vec!["a".into(), "b".into()],
        pk_values: vec![Value::integer(1), Value::null()],
        columns: vec![],
        values: vec![],
    };
    assert_eq!(row_sql(&delete, &none), "DELETE FROM \"t\" WHERE \"a\" = 1 AND \"b\" = NULL;");
}

#[test]
fn ddl_comes_first_and_is_closed() {
    let t = tx(
        vec![insert_row(1, Value::null()), insert_row(2, Value::null())],
        vec![
            DdlEvent { statements: vec!["CREATE TABLE a (x)  \n".into(), "DROP TABLE b; ".into()] },
            DdlEvent { statements: vec!["".into()] },
        ],
    );
    let out = statements(&t);
    assert_eq!(&out[..3], &["CREATE TABLE a (x);", "DROP TABLE b;", ";"]);
    assert_eq!(out.len(), 5);
    assert!(out.iter().all(|s| s.ends_with(';')));
}

#[test]
fn events_that_cannot_be_rendered_are_told() {
    let none = HashMap::new();
    let mut row = insert_row(1, Value::null());
    assert!(can_render(&row, &none));
    row.op = 3;
    assert!(!can_render(&row, &none));
    row.op = Op::Update.to_i32();
    row.pk_columns = vec!["nope".into()];
    assert!(!can_render(&row, &none));
    row.op = Op::Insert.to_i32();
    assert!(can_render(&row, &none));
    row.values[1] = float(2.5);
    assert!(!can_render(&row, &none));
    assert!(!can_render_all(&tx(vec![row], vec![]), &none));
}

fn log_with_min(min: u64, current: u64) -> Binlog {
    let mut recovery = Recovery::new(vec![(min, 0)]);
    let t = Transaction { lsn: current, commit_ts_ms: 0, rows: vec![], ddl: vec![] };
    let body = t.encode_to_vec();
    let mut bytes = vec![body.len() as u8];
    bytes.extend(body);
    recovery.scan_state(&bytes).unwrap();
    Binlog::open(recovery, 1024, 10_000)
}

#[test]
fn a_replica_that_lags_is_refused() {
    let log = log_with_min(30, 40);
    let err = open_stream(&log, BinlogQuery { since: 29 }).err().unwrap();
    assert_eq!(err.status, 409);
    assert_eq!(err.code, "BINLOG_LAG");
    assert_eq!(
        err.message,
        "requested LSN 29 is older than the oldest retained binlog record (30); \
         the client must re-clone the database"
    );
    assert!(open_stream(&log, BinlogQuery { since: 30 }).is_ok());
    assert!(open_stream(&log, BinlogQuery { since: 99 }).is_ok());
    assert_eq!(
        info(&log, 5),
        InfoResponse { current_lsn: 40, min_lsn: 30, schema_version: 5 }
    );
}

#[test]
fn stream_events_carry_lsn_and_statements() {
    let mut t = tx(vec![], vec![DdlEvent { statements: vec!["CREATE TABLE a (x)".into()] }]);
    t.lsn = 7;
    match tx_event(&t, &HashMap::new()) {
        SyncEvent::Tx(p) => {
            assert_eq!(p.lsn, 7);
            assert_eq!(p.statements, vec!["CREATE TABLE a (x);"]);
        }
        other => panic!("{other:?}"),
    }
    assert_eq!(
        error_event(&BinlogError::VarintTooLong, ""),
        SyncEvent::Error {
            code: "BINLOG_READ".into(),
            message: "binlog: varint too long".into()
        }
    );
    let cause = "failed to decode Protobuf message: RowEvent.table: Transaction.rows: invalid \
                 string value: data is not UTF-8 encoded";
    assert_eq!(
        error_event(&BinlogError::Corrupt, cause),
        SyncEvent::Error { code: "BINLOG_READ".into(), message: cause.into() }
    );
}

#[test]
fn replaying_a_suffix_changes_nothing() {
    let mut update = insert_row(1, Value::text("b"));
    update.op = Op::Update.to_i32();
    let delete = RowEvent {
        table: "t".into(),
        op: Op::Delete.to_i32(),
        pk_columns: vec!["id".into()],
        pk_values: vec![Value::integer(2)],
        columns: vec![],
        values: vec![],
    };
    let stream = [
        tx(vec![insert_row(1, Value::text("a"))], vec![]),
        tx(vec![insert_row(2, Value::text("x")), update], vec![]),
        tx(vec![delete], vec![]),
        tx(vec![insert_row(3, Value::null())], vec![]),
    ];
    let schema = "CREATE TABLE t (id INTEGER PRIMARY KEY, v);";
    let once = dump_t(&apply(&stream, schema));
    for from in 0..stream.len() {
        let mut twice: Vec<Transaction> = vec![];
        for t in stream.iter().chain(&stream[from..]) {
            twice.push(Transaction::decode(&t.encode_to_vec()).unwrap());
        }
        assert_eq!(dump_t(&apply(&twice, schema)), once);
    }
}

#[test]
fn statements_start_with_words() {
    assert!(starts_with("  attach database 'x'", "ATTACH"));
    assert!(starts_with("\u{a0}ATTACHED", "ATTACH"));
    assert!(!starts_with("-- c\nATTACH", "ATTACH"));
    assert!(!starts_with("ATTAC", "ATTACH"));
}

#[test]
fn appended_transactions_are_served() {
    let mut log = Binlog::open(Recovery::new(vec![]), 1024, 10_000);
    let Append::Write { lsn, record, .. } =
        log.append(tx(vec![insert_row(1, float(0.5))], vec![]))
    else {
        unreachable!()
    };
    log.rotate(0);
    log.committed(record.len() as u64);
    let txs = log.read_since(&vec![record], 0).unwrap();
    assert_eq!(
        statements(&txs[0]),
        vec![
            "INSERT INTO \"t\" (\"id\", \"v\") VALUES (1, 0.5) ON CONFLICT(\"id\") \
             DO UPDATE SET \"v\" = excluded.\"v\";"
        ]
    );
}

#[test]
fn numbers_and_bytes_read_back() {
    for v in [0i64, 7, -7, 1_000_000, i64::MAX, i64::MIN] {
        let mut out = String::new();
        replite::text::push_signed(&mut out, v);
        assert_eq!(out, v.to_string());
        assert_eq!(replite::text::parse_i64(&out), Some(v));
    }
    let mut out = String::new();
    replite::sql::push_hex(&mut out, &[0, 15, 160, 255]);
    assert_eq!(out, "000fa0ff");
}

#[test]
fn malformed_records_are_told() {
    let mut t = Transaction { lsn: 3, commit_ts_ms: 0, rows: vec![], ddl: vec![] };
    assert!(matches!(record_event(&t, &HashMap::new()), SyncEvent::Tx(p) if p.lsn == 3));
    t.rows.push(RowEvent {
        table: "t".into(),
        op: 9,
        pk_columns: vec![],
        pk_values: vec![],
        columns: vec![],
        values: vec![],
    });
    match record_event(&t, &HashMap::new()) {
        SyncEvent::Error { code, .. } => assert_eq!(code, "BINLOG_MALFORMED"),
        other => panic!("{other:?}"),
    }
}

#[test]
fn texts_with_nul_are_given_by_their_bytes() {
    let none = HashMap::new();
    assert_eq!(sql_literal(&Value::text("a\0b"), &none), "CAST(X'610062' AS TEXT)");
    assert_eq!(sql_literal(&Value::text("ab"), &none), "'ab'");
}
