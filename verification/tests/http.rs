use replite::config::{Config, Env};
use replite::error::{ffi_code_name, hrana_code, AppError, ErrorCode, SqliteError, StmtError};
use replite::executor::stmt_result;
use replite::hrana::blob::{read_blob, trim_padding, write_blob};
use replite::hrana::proto::{Col, Row, Stmt, Value};
use replite::http::{
    decoded_value, hrana_value_to_json, legacy_args, legacy_value_to_hrana, may_create,
    namespace_from_request,
    namespace_missing, path_namespace, read_header, sync_namespace, Json, LegacyAction,
    LegacyParams, LegacyRun, LegacyStatement, Wanted,
};
use replite::namespace::{
    existing_namespace, fault_message, Lookup, NamespaceError, NamespaceManager, NamespaceName,
    DB_FILE,
};
use replite::text::{parse_i64, parse_u64};

fn name(s: &str) -> NamespaceName {
    NamespaceName::from_string(s.to_string()).unwrap()
}

fn name_error(s: &str) -> (NamespaceError, String) {
    let e = NamespaceName::from_string(s.to_string()).unwrap_err();
    let message = e.message(s);
    (e, message)
}

#[test]
fn valid_names_are_kept() {
    for s in ["default", "a", "A-b_c.d:e", "a/b/c", "0", &"x".repeat(64)] {
        assert_eq!(name(s).as_str(), s);
    }
    assert_eq!(NamespaceName::default().as_str(), "default");
    assert!(name("a").clone().same(&name("a")) && !name("a").same(&name("b")));
}

#[test]
fn names_that_are_none_are_refused() {
    assert_eq!(name_error(""), (NamespaceError::Empty, "namespace name must not be empty".into()));
    assert_eq!(
        name_error(&"x".repeat(65)),
        (NamespaceError::TooLong, "namespace name too long".into())
    );
    assert_eq!(name_error(&"\u{e9}".repeat(33)).0, NamespaceError::TooLong);
    for s in [".", "..", "a/..", "a//b", "/a", "a/", ".hidden", "a/.b"] {
        assert_eq!(
            name_error(s),
            (NamespaceError::Invalid, format!("invalid namespace name: {s:?}"))
        );
    }
    assert_eq!(
        name_error("a b\n"),
        (
            NamespaceError::BadChar(' '),
            "invalid character ' ' in namespace name: \"a b\\n\"".into()
        )
    );
    assert_eq!(name_error("a\\b").0, NamespaceError::BadChar('\\'));
    assert_eq!(name_error("a/b?/..").0, NamespaceError::BadChar('?'));
    assert_eq!(
        fault_message(&NamespaceError::BadChar('x'), "'x'", "\"y\""),
        "invalid character 'x' in namespace name: \"y\""
    );
}

#[test]
fn namespaces_are_found_by_name() {
    let mut m: NamespaceManager<u32> = NamespaceManager::new();
    assert!(matches!(m.get(&name("a"), false), Lookup::Missing));
    assert!(matches!(m.get(&name("a"), true), Lookup::OnDisk));
    m.insert(name("a"), 1);
    m.insert(name("b"), 2);
    m.insert(name("c"), 3);
    m.insert(name("a"), 4);
    assert!(matches!(m.get(&name("a"), false), Lookup::Open(4)));
    assert!(m.delete(&name("b"), false));
    assert!(!m.delete(&name("b"), false));
    assert!(m.delete(&name("a/b"), true), "it exists, though it is not open");
    assert!(matches!(m.get(&name("b"), false), Lookup::Missing));
    assert!(matches!(m.get(&name("c"), false), Lookup::Open(3)));
}

#[test]
fn existing_namespaces_have_a_database() {
    assert_eq!(existing_namespace("a".into(), true, true).unwrap().as_str(), "a");
    assert!(existing_namespace("a".into(), false, true).is_none());
    assert!(existing_namespace("a".into(), true, false).is_none());
    assert!(existing_namespace("a b".into(), true, true).is_none());
    assert_eq!(DB_FILE, "db.sqlite");
}

#[test]
fn requests_mean_namespaces() {
    match namespace_from_request(None).unwrap() {
        Wanted::Default(n) => assert_eq!(n.as_str(), "default"),
        other => panic!("{other:?}"),
    }
    match namespace_from_request(Some(b"tenant-1")).unwrap() {
        Wanted::Existing(n) => assert_eq!(n.as_str(), "tenant-1"),
        other => panic!("{other:?}"),
    }
    let err = namespace_from_request(Some(b"\xff")).unwrap_err();
    assert_eq!((err.status, err.code.as_str()), (400, "INVALID_NAMESPACE"));
    assert_eq!(err.message, "x-namespace header must be valid UTF-8");
    let err = namespace_from_request(Some(b"../x")).unwrap_err();
    assert_eq!(err.message, "invalid namespace name: \"../x\"");
    let err = path_namespace("".into()).unwrap_err();
    assert_eq!((err.status, err.code.as_str()), (400, "INVALID_NAMESPACE"));
    let err = sync_namespace("".into()).unwrap_err();
    assert_eq!((err.status, err.code.as_str()), (500, "INTERNAL_ERROR"));
    assert_eq!(path_namespace("a".into()).unwrap().as_str(), "a");
    assert_eq!(sync_namespace("a".into()).unwrap().as_str(), "a");
    let err = namespace_missing(&name("x"));
    assert_eq!((err.status, err.code.as_str()), (404, "NOT_FOUND"));
    assert_eq!(err.message, "namespace x does not exist");
    assert_eq!(read_header(b"a\tb ~").unwrap(), "a\tb ~");
    assert!(read_header(&[0x7f]).is_none() && read_header(&[0x1f]).is_none());
}

fn env(segment: Option<&str>, total: Option<&str>) -> Env {
    Env {
        addr: None,
        db_path: Some("/x".into()),
        max_segment_bytes: segment.map(|s| s.into()),
        max_binlog_bytes: total.map(|s| s.into()),
    }
}

#[test]
fn configuration_comes_from_the_environment() {
    let c = Config::from_env(env(None, None)).unwrap();
    assert_eq!(c.addr, "0.0.0.0:8080");
    assert_eq!(c.db_path, "/x");
    assert_eq!(c.max_segment_bytes, 16 * 1024 * 1024);
    assert_eq!(c.max_binlog_bytes, 256 * 1024 * 1024);
    let c = Config::from_env(Env {
        addr: Some(":1".into()),
        db_path: None,
        max_segment_bytes: Some("10".into()),
        max_binlog_bytes: Some("+20".into()),
    })
    .unwrap();
    assert_eq!((c.addr.as_str(), c.db_path.as_str()), (":1", "./data"));
    assert_eq!((c.max_segment_bytes, c.max_binlog_bytes), (10, 20));
    let e = Config::from_env(env(Some("x"), Some("y"))).unwrap_err();
    assert_eq!(e.message, "SQLD_MAX_SEGMENT_BYTES must be a number");
    let e = Config::from_env(env(None, Some(""))).unwrap_err();
    assert_eq!(e.message, "SQLD_MAX_BINLOG_BYTES must be a number");
}

#[test]
fn numbers_are_read_as_std_reads_them() {
    for s in [
        "", "+", "-", "0", "-0", "+0", "007", "12", "-12", "+12", " 1", "1 ", "1.0", "a", "--1",
        "18446744073709551615", "18446744073709551616", "9223372036854775807",
        "9223372036854775808", "-9223372036854775808", "-9223372036854775809",
        "99999999999999999999999", "\u{661}",
    ] {
        assert_eq!(parse_u64(s), s.parse().ok(), "{s}");
        assert_eq!(parse_i64(s), s.parse().ok(), "{s}");
    }
}

fn failure(code: Option<ErrorCode>, no_rows: bool, detail: Option<&str>) -> SqliteError {
    SqliteError { code, no_rows, detail: detail.map(|s| s.into()), text: "driver".into() }
}

#[test]
fn sqlite_failures_have_codes() {
    let e = failure(Some(ErrorCode::ConstraintViolation), false, Some("UNIQUE constraint failed"));
    assert_eq!(hrana_code(&e), "SQLITE_CONSTRAINT");
    let app = AppError::from_sqlite(&e);
    assert_eq!((app.status, app.message.as_str()), (500, "UNIQUE constraint failed"));
    assert_eq!(app.code, "SQLITE_CONSTRAINT");
    let stmt = StmtError::from_sqlite(&failure(Some(ErrorCode::DatabaseBusy), false, None));
    assert_eq!((stmt.code.as_str(), stmt.message.as_str()), ("SQLITE_BUSY", "driver"));
    assert_eq!(hrana_code(&failure(None, true, None)), "SQLITE_QUERY_RETURNED_NO_ROWS");
    assert_eq!(hrana_code(&failure(None, false, None)), "SQLITE_ERROR");
    assert_eq!(ffi_code_name(ErrorCode::Unknown), "UNKNOWN");
    assert_eq!(ffi_code_name(ErrorCode::NotADatabase), "NOTADB");
    assert_eq!(ffi_code_name(ErrorCode::SystemIoFailure), "IOERR");
}

#[test]
fn errors_have_statuses() {
    assert_eq!(AppError::not_found("m").status, 404);
    assert_eq!(AppError::bad_request("C", "m").status, 400);
    assert_eq!(AppError::internal("m").code, "INTERNAL_ERROR");
    assert_eq!(AppError::conflict("C", "m").status, 409);
    assert_eq!(
        AppError::new(418, "C", "m"),
        AppError { status: 418, message: "m".into(), code: "C".into() }
    );
}

#[test]
fn blobs_are_base64() {
    assert_eq!(write_blob(&vec![1, 2, 3, 255]), "AQID/w");
    for text in ["AQID/w", "AQID/w=", "AQID/w=="] {
        assert_eq!(read_blob(text), Some(vec![1, 2, 3, 255]));
    }
    assert_eq!(read_blob("AQID_w"), None);
    assert_eq!(read_blob(""), Some(vec![]));
    assert_eq!(trim_padding("a=b=="), "a=b");
}

#[test]
fn legacy_values_are_converted() {
    let blob = |s: &str| Json::Object(vec![("base64".into(), Json::Text(s.into()))]);
    assert_eq!(legacy_value_to_hrana(&Json::Null), Value::Null);
    assert_eq!(legacy_value_to_hrana(&Json::Bool(true)), Value::integer(1));
    assert_eq!(legacy_value_to_hrana(&Json::Integer(-4)), Value::integer(-4));
    assert_eq!(legacy_value_to_hrana(&Json::Real(7)), Value::float(7));
    assert_eq!(legacy_value_to_hrana(&Json::Text("x".into())), Value::text("x"));
    assert_eq!(legacy_value_to_hrana(&Json::Array(vec![Json::Null])), Value::Null);
    assert_eq!(legacy_value_to_hrana(&blob("AQID/w")), Value::blob(vec![1, 2, 3, 255]));
    assert_eq!(legacy_value_to_hrana(&blob("AQID/w==")), Value::Null);
    assert_eq!(legacy_value_to_hrana(&Json::Object(vec![])), Value::Null);
    let number = Json::Object(vec![("base64".into(), Json::Integer(1))]);
    assert_eq!(legacy_value_to_hrana(&number), Value::Null);
    assert_eq!(decoded_value(Some(vec![5])), Value::blob(vec![5]));
    assert_eq!(decoded_value(None), Value::null());
}

#[test]
fn values_that_are_shown_read_back() {
    for v in [
        Value::null(),
        Value::integer(i64::MIN),
        Value::float(1.5f64.to_bits()),
        Value::text("\u{e9}"),
        Value::blob(vec![0, 1, 2, 3, 254]),
        Value::blob(vec![]),
    ] {
        assert_eq!(legacy_value_to_hrana(&hrana_value_to_json(&v)), v);
    }
    assert_eq!(hrana_value_to_json(&Value::Unset), Json::Null);
    assert_eq!(
        hrana_value_to_json(&Value::blob(vec![255])),
        Json::Object(vec![("base64".into(), Json::Text("/w".into()))])
    );
}

fn legacy(q: &str) -> LegacyStatement {
    LegacyStatement { q: q.into(), params: LegacyParams::Positional(vec![Json::Integer(1)]) }
}

/// Runs a legacy request; statements with `fail` in them fail.
fn run(statements: Vec<LegacyStatement>) -> (Vec<String>, Result<usize, AppError>) {
    run_refusing(&[], statements)
}

/// Runs a legacy request; those of the server's own statements that are in
/// `refused` fail too.
fn run_refusing(
    refused: &[&str],
    statements: Vec<LegacyStatement>,
) -> (Vec<String>, Result<usize, AppError>) {
    let mut r = LegacyRun::new(statements);
    let mut ran = vec![];
    let mut action = r.start();
    loop {
        action = match action {
            LegacyAction::Control(sql) => {
                ran.push(sql.to_string());
                r.controlled(if refused.contains(&sql) {
                    Err(StmtError::new("BINLOG_WRITE", "disk full"))
                } else {
                    Ok(())
                })
            }
            LegacyAction::Execute { sql, args } => {
                assert_eq!(args.args, vec![Value::integer(1)]);
                ran.push(sql.clone());
                r.executed(if sql.contains("fail") {
                    Err(StmtError::new("SQLITE_ERROR", "no"))
                } else {
                    let col = |n: Option<&str>| Col {
                        name: n.map(|s| s.into()),
                        decltype: None,
                    };
                    Ok(stmt_result(
                        vec![col(Some("a")), col(None)],
                        vec![Row { values: vec![Value::integer(1), Value::null()] }],
                        0,
                        0,
                        0,
                    ))
                })
            }
            LegacyAction::Finish => break,
        };
    }
    let result = r.finish().map(|rows| {
        for shown in &rows {
            assert_eq!(shown.columns, vec!["a", ""]);
            assert_eq!(shown.rows, vec![vec![Json::Integer(1), Json::Null]]);
        }
        rows.len()
    });
    (ran, result)
}

#[test]
fn one_legacy_statement_runs_alone() {
    assert_eq!(run(vec![]), (vec![], Ok(0)));
    assert_eq!(run(vec![legacy("a")]), (vec!["a".to_string()], Ok(1)));
    let (ran, result) = run(vec![legacy("fail")]);
    assert_eq!(ran, vec!["fail"]);
    assert_eq!(result, Err(AppError::new(500, "SQLITE_ERROR", "no")));
}

#[test]
fn several_legacy_statements_run_in_a_transaction() {
    let (ran, result) = run(vec![legacy("a"), legacy("b")]);
    assert_eq!(ran, vec!["BEGIN IMMEDIATE", "a", "b", "COMMIT"]);
    assert_eq!(result, Ok(2));
    let (ran, result) = run(vec![legacy("a"), legacy("fail"), legacy("c")]);
    assert_eq!(ran, vec!["BEGIN IMMEDIATE", "a", "fail", "ROLLBACK"]);
    assert_eq!(result.unwrap_err().message, "no");
}

#[test]
fn failed_commit_fails_the_legacy_request() {
    let two = || vec![legacy("a"), legacy("b")];
    let (ran, result) = run_refusing(&["COMMIT"], two());
    assert_eq!(ran, vec!["BEGIN IMMEDIATE", "a", "b", "COMMIT", "ROLLBACK"]);
    assert_eq!(result, Err(AppError::new(500, "BINLOG_WRITE", "disk full")));
    // Without a transaction every statement was committed by itself.
    let (ran, result) = run_refusing(&["BEGIN IMMEDIATE", "COMMIT"], two());
    assert_eq!(ran, vec!["BEGIN IMMEDIATE", "a", "b", "COMMIT"]);
    assert_eq!(result, Ok(2));
    let (ran, result) = run_refusing(&["ROLLBACK"], vec![legacy("fail"), legacy("b")]);
    assert_eq!(ran, vec!["BEGIN IMMEDIATE", "fail", "ROLLBACK"]);
    assert_eq!(result, Err(AppError::new(500, "SQLITE_ERROR", "no")));
}

#[test]
fn legacy_arguments_are_named_or_not() {
    let args = legacy_args(&LegacyParams::Named(vec![("a".into(), Json::Bool(false))]));
    assert!(args.args.is_empty());
    assert_eq!(args.named_args.len(), 1);
    assert_eq!(args.named_args[0].name, "a");
    assert_eq!(args.named_args[0].value, Value::integer(0));
    let stmt = Stmt::new("SELECT 1", true);
    assert_eq!((stmt.sql.as_deref(), stmt.want_rows), (Some("SELECT 1"), Some(true)));
}

#[test]
fn existing_namespaces_are_not_created() {
    assert_eq!(may_create(&name("a"), false), Ok(()));
    let e = may_create(&name("a"), true).unwrap_err();
    assert_eq!((e.status, e.code.as_str()), (409, "NAMESPACE_EXISTS"));
    assert_eq!(e.message, "namespace a already exists");
}
