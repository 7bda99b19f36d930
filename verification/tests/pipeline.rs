use replite::error::StmtError;
use replite::executor::stmt_result;
use replite::hrana::proto::{
    Batch, BatchCond, BatchCondList, BatchStep, BatchStreamReq, CloseSqlStreamReq, CloseStreamReq,
    DescribeResult, DescribeStreamReq, Error, ExecuteStreamReq, GetAutocommitStreamReq,
    PipelineReqBody, SequenceStreamReq, Stmt, StmtResult, StoreSqlStreamReq, StreamRequest,
    StreamResponse, StreamResult,
};
use replite::pipeline::{eval_cond, resolve_stmt, Action, Event, Pipeline};
use std::collections::HashMap;

fn result(n: u64) -> StmtResult {
    stmt_result(vec![], vec![], n, 1, 0)
}

fn execute(sql: &str) -> StreamRequest {
    StreamRequest::Execute(ExecuteStreamReq { stmt: Stmt::new(sql, true) })
}

fn by_id(id: i32) -> StreamRequest {
    let mut stmt = Stmt::new("", true);
    stmt.sql = None;
    stmt.sql_id = Some(id);
    stmt.want_rows = None;
    StreamRequest::Execute(ExecuteStreamReq { stmt })
}

fn store(id: i32, sql: &str) -> StreamRequest {
    StreamRequest::StoreSql(StoreSqlStreamReq { sql_id: id, sql: sql.into() })
}

/// Runs a pipeline against a connection that fails statements with `fail` in
/// them and is in a transaction after `BEGIN`. Gives the results, whether the
/// stream was closed, the stored statements and what was run.
fn run(
    requests: Vec<StreamRequest>,
    fresh: bool,
    sqls: HashMap<i32, String>,
) -> (Vec<StreamResult>, bool, HashMap<i32, String>, Vec<String>) {
    let body = PipelineReqBody { baton: None, requests };
    let mut p = Pipeline::new(body, fresh, sqls);
    let mut ran = vec![];
    let mut autocommit = true;
    let mut action = p.start();
    loop {
        let event = match action {
            Action::Rollback => {
                ran.push("(rollback)".to_string());
                Event::RolledBack
            }
            Action::Execute { sql, args, want_rows } => {
                ran.push(format!("{sql} {} {}", args.args.len(), want_rows));
                if sql.contains("fail") {
                    Event::Executed(Err(StmtError::new("SQLITE_ERROR", "no")))
                } else {
                    if sql == "BEGIN" {
                        autocommit = false;
                    }
                    Event::Executed(Ok(result(ran.len() as u64)))
                }
            }
            Action::Sequence { sql } => {
                ran.push(format!("seq {sql}"));
                Event::Sequenced(if sql == "fail" {
                    Err(StmtError::new("SQLITE_ERROR", "no"))
                } else {
                    Ok(())
                })
            }
            Action::Describe { sql } => {
                ran.push(format!("desc {sql}"));
                Event::Described(if sql == "fail" {
                    Err(StmtError::new("SQLITE_ERROR", "no"))
                } else {
                    Ok(DescribeResult {
                        params: vec![],
                        cols: vec![],
                        is_explain: false,
                        is_readonly: true,
                    })
                })
            }
            Action::Autocommit => Event::Autocommit(autocommit),
            Action::Finish => break,
        };
        action = p.resume(event);
    }
    let (body, closed, sqls) = p.finish();
    assert_eq!(body.baton, None);
    assert_eq!(body.base_url, None);
    (body.results, closed, sqls, ran)
}

fn error_of(r: &StreamResult) -> (&str, &str) {
    match r {
        StreamResult::Error { error } => (&error.code, &error.message),
        other => panic!("{other:?}"),
    }
}

fn response_of(r: &StreamResult) -> &StreamResponse {
    match r {
        StreamResult::Success { response } => response,
        other => panic!("{other:?}"),
    }
}

#[test]
fn every_request_is_answered_in_order() {
    let (results, closed, _, ran) = run(
        vec![
            StreamRequest::Empty,
            execute("SELECT 1"),
            execute("fail"),
            StreamRequest::Sequence(SequenceStreamReq {
                sql: Some("a; b".into()),
                sql_id: None,
                replication_index: None,
            }),
            StreamRequest::Describe(DescribeStreamReq {
                sql: Some("SELECT 2".into()),
                sql_id: None,
                replication_index: None,
            }),
            StreamRequest::GetAutocommit(GetAutocommitStreamReq {}),
            StreamRequest::Close(CloseStreamReq {}),
        ],
        false,
        HashMap::new(),
    );
    assert_eq!(results.len(), 7);
    assert_eq!(error_of(&results[0]), ("EMPTY_STREAM_REQUEST", "empty stream request"));
    assert!(matches!(response_of(&results[1]), StreamResponse::Execute(r) if r.result == result(1)));
    assert_eq!(error_of(&results[2]), ("SQLITE_ERROR", "no"));
    assert!(matches!(response_of(&results[3]), StreamResponse::Sequence(_)));
    assert!(matches!(response_of(&results[4]), StreamResponse::Describe(_)));
    assert!(
        matches!(response_of(&results[5]), StreamResponse::GetAutocommit(r) if r.is_autocommit)
    );
    assert!(matches!(response_of(&results[6]), StreamResponse::Close(_)));
    assert!(closed);
    assert_eq!(ran, vec!["SELECT 1 0 true", "fail 0 true", "seq a; b", "desc SELECT 2"]);
}

#[test]
fn a_fresh_pipeline_forgets() {
    let mut sqls = HashMap::new();
    sqls.insert(1, "SELECT 1".to_string());
    let (results, closed, left, ran) = run(vec![by_id(1)], true, sqls.clone());
    assert_eq!(error_of(&results[0]), ("SQL_STORE_MISSING", "stored SQL not found"));
    assert_eq!(ran, vec!["(rollback)"]);
    assert!(left.is_empty());
    assert!(!closed);
    let (results, _, left, ran) = run(vec![by_id(1)], false, sqls);
    assert!(matches!(response_of(&results[0]), StreamResponse::Execute(_)));
    assert_eq!(ran, vec!["SELECT 1 0 true"]);
    assert_eq!(left.len(), 1);
}

#[test]
fn statements_are_stored_and_closed() {
    let close = StreamRequest::CloseSql(CloseSqlStreamReq { sql_id: -3 });
    let (results, _, left, ran) = run(
        vec![store(-3, "SELECT 3"), store(-3, "x"), by_id(-3), close, by_id(-3)],
        false,
        HashMap::new(),
    );
    assert!(matches!(response_of(&results[0]), StreamResponse::StoreSql(_)));
    assert_eq!(error_of(&results[1]), ("SQL_STORE_EXISTS", "SQL with id -3 already stored"));
    assert!(matches!(response_of(&results[2]), StreamResponse::Execute(_)));
    assert!(matches!(response_of(&results[3]), StreamResponse::CloseSql(_)));
    assert_eq!(error_of(&results[4]).0, "SQL_STORE_MISSING");
    assert_eq!(ran, vec!["SELECT 3 0 true"]);
    assert!(left.is_empty());
}

#[test]
fn the_store_is_bounded() {
    let mut requests: Vec<StreamRequest> = (0..51).map(|i| store(i, "x")).collect();
    requests.push(StreamRequest::CloseSql(CloseSqlStreamReq { sql_id: 0 }));
    requests.push(store(100, &"y".repeat(5001)));
    requests.push(store(100, &"\u{e9}".repeat(2501)));
    requests.push(store(100, &"y".repeat(5000)));
    let (results, _, left, _) = run(requests, false, HashMap::new());
    assert!(results[..50].iter().all(|r| matches!(r, StreamResult::Success { .. })));
    assert_eq!(
        error_of(&results[50]),
        ("SQL_STORE_TOO_MANY", "The server already stores 50 SQL texts, it cannot store more")
    );
    for i in [52, 53] {
        assert_eq!(
            error_of(&results[i]),
            ("SQL_STORE_TOO_LARGE", "The statement is too large to be stored")
        );
    }
    assert!(matches!(results[54], StreamResult::Success { .. }));
    assert_eq!(left.len(), 50);
}

fn step(sql: &str, condition: Option<BatchCond>) -> BatchStep {
    BatchStep { condition, stmt: Stmt::new(sql, false) }
}

fn batch(steps: Vec<BatchStep>) -> StreamRequest {
    StreamRequest::Batch(BatchStreamReq { batch: Batch { steps, replication_index: None } })
}

#[test]
fn batches_run_their_enabled_steps() {
    let (results, _, _, ran) = run(
        vec![batch(vec![
            step("BEGIN", None),
            step("a", Some(BatchCond::Succeeded { step: 0 })),
            step("fail", Some(BatchCond::Succeeded { step: 1 })),
            step("b", Some(BatchCond::Succeeded { step: 2 })),
            step("ROLLBACK", Some(BatchCond::Not { cond: Box::new(BatchCond::IsAutocommit {}) })),
            step("c", Some(BatchCond::Failed { step: 3 })),
        ])],
        false,
        HashMap::new(),
    );
    assert_eq!(
        ran,
        vec!["BEGIN 0 false", "a 0 false", "fail 0 false", "ROLLBACK 0 false", "c 0 false"]
    );
    let StreamResponse::Batch(r) = response_of(&results[0]) else { unreachable!() };
    let got: Vec<bool> = r.result.step_results.iter().map(|r| r.is_some()).collect();
    assert_eq!(got, vec![true, true, false, false, true, true]);
    let errors: Vec<Option<&Error>> = r.result.step_errors.iter().map(|e| e.as_ref()).collect();
    assert_eq!(errors[2].unwrap().message, "no");
    assert_eq!(errors.iter().filter(|e| e.is_some()).count(), 1);
    assert_eq!(r.result.replication_index, None);
}

#[test]
fn a_batch_step_without_statement_fails_the_batch() {
    let mut missing = step("x", None);
    missing.stmt.sql = None;
    let (results, _, _, ran) = run(
        vec![batch(vec![step("a", None), missing, step("b", None)]), execute("z"), batch(vec![])],
        false,
        HashMap::new(),
    );
    assert_eq!(
        error_of(&results[0]),
        ("SQLITE_MISUSE", "statement has neither sql nor sql_id")
    );
    assert_eq!(ran, vec!["a 0 false", "z 0 true"]);
    let StreamResponse::Batch(r) = response_of(&results[2]) else { unreachable!() };
    assert!(r.result.step_results.is_empty() && r.result.step_errors.is_empty());
}

#[test]
fn conditions_are_evaluated() {
    let list = |conds| BatchCondList { conds };
    let ok = |step| BatchCond::Succeeded { step };
    let failed = |step| BatchCond::Failed { step };
    let outcomes = vec![true, false];
    let eval = |c: BatchCond| eval_cond(&c, &outcomes, true);
    assert!(eval(BatchCond::Empty));
    assert!(eval(ok(0)) && !eval(ok(1)) && !eval(ok(2)));
    assert!(!eval(failed(0)) && eval(failed(1)) && !eval(failed(2)));
    assert!(eval(BatchCond::And(list(vec![]))) && !eval(BatchCond::Or(list(vec![]))));
    assert!(eval(BatchCond::And(list(vec![ok(0), failed(1)]))));
    assert!(!eval(BatchCond::And(list(vec![ok(0), ok(1)]))));
    assert!(eval(BatchCond::Or(list(vec![ok(1), ok(0)]))));
    assert!(!eval(BatchCond::Or(list(vec![ok(1), ok(7)]))));
    assert!(!eval(BatchCond::Not { cond: Box::new(BatchCond::And(list(vec![ok(0)]))) }));
    assert!(eval(BatchCond::IsAutocommit {}));
    assert!(!eval_cond(&BatchCond::IsAutocommit {}, &outcomes, false));
}

#[test]
fn a_text_goes_before_a_number() {
    let mut sqls = HashMap::new();
    sqls.insert(1, "stored".to_string());
    assert_eq!(resolve_stmt(Some("own".into()), Some(1), &sqls).unwrap(), "own");
    assert_eq!(resolve_stmt(None, Some(1), &sqls).unwrap(), "stored");
    assert_eq!(resolve_stmt(None, Some(2), &sqls).unwrap_err().code, "SQL_STORE_MISSING");
    assert_eq!(resolve_stmt(None, None, &sqls).unwrap_err().code, "SQLITE_MISUSE");
}

#[test]
fn requests_without_statement_are_refused() {
    let sequence = StreamRequest::Sequence(SequenceStreamReq {
        sql: None,
        sql_id: Some(9),
        replication_index: None,
    });
    let describe = StreamRequest::Describe(DescribeStreamReq {
        sql: Some("fail".into()),
        sql_id: None,
        replication_index: None,
    });
    let describe_none = StreamRequest::Describe(DescribeStreamReq {
        sql: None,
        sql_id: None,
        replication_index: None,
    });
    let failing = StreamRequest::Sequence(SequenceStreamReq {
        sql: Some("fail".into()),
        sql_id: None,
        replication_index: None,
    });
    let (results, _, _, _) =
        run(vec![sequence, describe, describe_none, failing], false, HashMap::new());
    assert_eq!(error_of(&results[0]).0, "SQL_STORE_MISSING");
    assert_eq!(error_of(&results[1]), ("SQLITE_ERROR", "no"));
    assert_eq!(error_of(&results[2]).0, "SQLITE_MISUSE");
    assert_eq!(error_of(&results[3]), ("SQLITE_ERROR", "no"));
}
