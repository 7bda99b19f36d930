use replite::binlog::{DdlEvent, Op, RowEvent, Transaction, Value};
use replite::calendar::{civil_from_days, floor_div};
use replite::inspect::{
    can_print, escape, fmt_tx, fmt_utc, fmt_value, op_label, InspectError, Inspector,
};
use std::collections::HashMap;

fn none() -> HashMap<u64, String> {
    HashMap::new()
}

#[test]
fn days_are_dates() {
    assert_eq!(civil_from_days(0), (1970, 1, 1));
    assert_eq!(civil_from_days(-1), (1969, 12, 31));
    assert_eq!(civil_from_days(59), (1970, 3, 1));
    assert_eq!(civil_from_days(11016), (2000, 2, 29));
    assert_eq!(civil_from_days(11017), (2000, 3, 1));
    assert_eq!(civil_from_days(19_782), (2024, 2, 29));
    assert_eq!(civil_from_days(-719468), (0, 3, 1));
    assert_eq!(civil_from_days(-719529), (-1, 12, 31));
    assert_eq!(floor_div(-1, 1000), (-1, 999));
    assert_eq!(floor_div(2001, 1000), (2, 1));
}

#[test]
fn consecutive_days_are_consecutive_dates() {
    let mut last = civil_from_days(-800_000);
    for z in -799_999..800_000 {
        let (y, m, d) = civil_from_days(z);
        let next = (y, m, d) == (last.0, last.1, last.2 + 1)
            || (y, m, d) == (last.0, last.1 + 1, 1)
            || (y, m, d) == (last.0 + 1, 1, 1) && (last.1, last.2) == (12, 31);
        assert!(next, "{last:?} {:?}", (y, m, d));
        last = (y, m, d);
    }
}

#[test]
fn times_are_shown_in_utc() {
    assert_eq!(fmt_utc(0), "1970-01-01T00:00:00.000Z");
    assert_eq!(fmt_utc(-1), "1969-12-31T23:59:59.999Z");
    assert_eq!(fmt_utc(1_700_000_000_123), "2023-11-14T22:13:20.123Z");
    assert_eq!(fmt_utc(-62_198_755_200_000), "-001-01-01T00:00:00.000Z");
    assert_eq!(&fmt_utc(i64::MAX)[..9], "292278994");
}

#[test]
fn texts_are_escaped() {
    assert_eq!(escape("a\"b\\c\nd\re\tf"), "a\\\"b\\\\c\\nd\\re\\tf");
    assert_eq!(escape("\u{0}\u{1f}\u{7f}\u{9f}\u{a0}\u{e9}"), "\\x00\\x1f\\x7f\\x9f\u{a0}\u{e9}");
}

#[test]
fn values_are_shown() {
    let mut reals = none();
    reals.insert(2.0f64.to_bits(), "2".to_string());
    assert_eq!(fmt_value(&Value { value: None }, &reals), "NULL");
    assert_eq!(fmt_value(&Value::null(), &reals), "NULL");
    assert_eq!(fmt_value(&Value::integer(-5), &reals), "-5");
    assert_eq!(fmt_value(&Value::float(2.0f64.to_bits()), &reals), "2");
    assert_eq!(fmt_value(&Value::text("x\"y"), &reals), "\"x\\\"y\"");
    assert_eq!(fmt_value(&Value::blob(vec![0xab, 1]), &reals), "X'ab01'");
    assert_eq!(fmt_value(&Value::raw_text(vec![0xff]), &reals), "CAST(X'ff' AS TEXT)");
    assert_eq!(
        fmt_value(&Value::blob(vec![0x11; 32]), &reals),
        format!("X'{}'", "11".repeat(32))
    );
    assert_eq!(
        fmt_value(&Value::blob(vec![0x11; 33]), &reals),
        format!("X'{}\u{2026}'", "11".repeat(32))
    );
}

fn row(op: i32) -> RowEvent {
    RowEvent {
        table: "t".into(),
        op,
        pk_columns: vec!["id".into(), "gone".into()],
        pk_values: vec![],
        columns: vec!["v".into(), "id".into()],
        values: vec![Value::text("x"), Value::integer(7)],
    }
}

#[test]
fn transactions_are_shown_line_by_line() {
    let mut deleted = row(Op::Delete.to_i32());
    let bare = row(Op::Delete.to_i32());
    deleted.pk_values = vec![Value::integer(1), Value::null()];
    let tx = Transaction {
        lsn: 12,
        commit_ts_ms: 0,
        rows: vec![row(0), row(1), deleted, bare, row(9)],
        ddl: vec![DdlEvent { statements: vec!["CREATE TABLE a (b)".into(), "X".into()] }],
    };
    assert!(can_print(&tx, &none()));
    assert_eq!(
        fmt_tx(&tx, &none()),
        vec![
            "txn lsn=12 commit=1970-01-01T00:00:00.000Z rows=5 ddl=1",
            "  INSERT table=\"t\" pk=[7] v=\"x\", id=7",
            "  UPDATE table=\"t\" pk=[7] v=\"x\", id=7",
            "  DELETE table=\"t\" pk=[1, NULL] ",
            "  DELETE table=\"t\" ",
            "  INSERT table=\"t\" pk=[7] v=\"x\", id=7",
            "  DDL    CREATE TABLE a (b)",
            "  DDL    X",
        ]
    );
    assert_eq!(op_label(Op::Update), "UPDATE");
    let mut short = row(0);
    short.values.pop();
    let tx = Transaction { lsn: 1, commit_ts_ms: 0, rows: vec![short], ddl: vec![] };
    assert!(!can_print(&tx, &none()));
}

fn record(lsn: u64) -> Vec<u8> {
    let body = Transaction { lsn, commit_ts_ms: 0, rows: vec![row(0)], ddl: vec![] }.encode_to_vec();
    let mut out = vec![body.len() as u8];
    out.extend(body);
    out
}

#[test]
fn segments_are_inspected() {
    let mut bytes = record(1);
    bytes.extend(record(2));
    let mut i = Inspector::new(bytes.clone());
    assert_eq!(i.next().unwrap().unwrap().lsn, 1);
    assert_eq!(i.next().unwrap().unwrap().lsn, 2);
    assert_eq!(i.next(), Ok(None));
    assert_eq!(i.count(), 2);
    bytes.pop();
    let mut i = Inspector::new(bytes);
    assert!(i.next().is_ok());
    assert_eq!(i.next(), Err(InspectError::TornRecord(1)));
    assert_eq!(Inspector::new(vec![0x80]).next(), Err(InspectError::TornVarint));
    assert_eq!(Inspector::new(vec![0x80; 11]).next(), Err(InspectError::VarintTooLong));
    assert_eq!(
        Inspector::new(vec![0x81, 0x80, 0x80, 0x20]).next(),
        Err(InspectError::ImplausibleLength(67_108_865))
    );
    assert_eq!(Inspector::new(vec![1, 0x08]).next(), Err(InspectError::CorruptRecord(0)));
}

#[test]
fn inspection_failures_are_told() {
    let text = |e: InspectError| e.message("a.seg");
    assert_eq!(text(InspectError::TornVarint), "binlog-inspect: torn varint");
    assert_eq!(text(InspectError::VarintTooLong), "binlog-inspect: varint too long");
    assert_eq!(
        text(InspectError::ImplausibleLength(9)),
        "binlog-inspect: implausible record length 9 in a.seg"
    );
    assert_eq!(
        text(InspectError::TornRecord(3)),
        "binlog-inspect: torn record after 3 records in a.seg"
    );
    assert_eq!(
        text(InspectError::CorruptRecord(0)),
        "binlog-inspect: corrupt record after 0 records in a.seg"
    );
}
