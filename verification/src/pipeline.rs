//! Hrana pipelines: the requests of one body in turn, and batches of
//! conditional steps. What runs statements is told what to do next, and tells
//! what came of it.

use crate::error::{Failure, StmtError};
use crate::executor::StmtArgs;
use crate::hrana::proto::{
    BatchCond, BatchCondList, BatchResult, BatchStep, BatchStreamResp, CloseSqlStreamResp, CloseStreamResp,
    DescribeResult, DescribeStreamResp, Error, ExecuteStreamResp, GetAutocommitStreamResp,
    NamedArg, PipelineReqBody, PipelineRespBody, SequenceStreamResp, StmtResult,
    StoreSqlStreamResp, StreamRequest, StreamResponse, StreamResult, Value,
};
use crate::model::{group_views, views};
use crate::text::{decimal, push_decimal, push_signed, signed_decimal};
use std::collections::HashMap;
use vstd::prelude::*;
use vstd::utf8::encode_utf8;

verus! {

broadcast use {group_views, vstd::std_specs::hash::group_hash_axioms};

/// The most bytes that a stored statement can have.
pub const MAX_STORED_SQL: usize = 5000;

/// The most statements that a stream stores.
pub const MAX_SQL_COUNT: usize = 50;

/// Whether a step's condition holds, given the outcomes of the steps before
/// it. A step without an outcome yet neither succeeded nor failed.
pub open spec fn cond_holds(cond: BatchCond, outcomes: Seq<bool>, autocommit: bool) -> bool
    decreases cond,
{
    match cond {
        BatchCond::Empty => true,
        BatchCond::Succeeded { step } => step < outcomes.len() && outcomes[step as int],
        BatchCond::Failed { step } => step < outcomes.len() && !outcomes[step as int],
        BatchCond::Not { cond } => !cond_holds(*cond, outcomes, autocommit),
        BatchCond::And(list) => all_hold(list.conds@, outcomes, autocommit),
        BatchCond::Or(list) => any_holds(list.conds@, outcomes, autocommit),
        BatchCond::IsAutocommit {  } => autocommit,
    }
}

pub open spec fn all_hold(conds: Seq<BatchCond>, outcomes: Seq<bool>, autocommit: bool) -> bool
    decreases conds,
{
    if conds.len() == 0 {
        true
    } else {
        cond_holds(conds[0], outcomes, autocommit) && all_hold(
            conds.subrange(1, conds.len() as int),
            outcomes,
            autocommit,
        )
    }
}

pub open spec fn any_holds(conds: Seq<BatchCond>, outcomes: Seq<bool>, autocommit: bool) -> bool
    decreases conds,
{
    if conds.len() == 0 {
        false
    } else {
        cond_holds(conds[0], outcomes, autocommit) || any_holds(
            conds.subrange(1, conds.len() as int),
            outcomes,
            autocommit,
        )
    }
}

/// Evaluates a step's condition against the outcomes of the steps before it.
pub fn eval_cond(cond: &BatchCond, outcomes: &Vec<bool>, autocommit: bool) -> (r: bool)
    ensures
        r == cond_holds(*cond, outcomes@, autocommit),
    decreases cond,
{
    match cond {
        BatchCond::Empty => true,
        BatchCond::Succeeded { step } => (*step as usize) < outcomes.len()
            && outcomes[*step as usize],
        BatchCond::Failed { step } => (*step as usize) < outcomes.len()
            && !outcomes[*step as usize],
        BatchCond::Not { cond } => !eval_cond(cond, outcomes, autocommit),
        BatchCond::And(list) => {
            let mut i: usize = 0;
            let ghost all = list.conds@;
            assert(all.subrange(0, all.len() as int) =~= all);
            while i < list.conds.len()
                invariant
                    i <= list.conds@.len(),
                    all == list.conds@,
                    *cond == BatchCond::And(*list),
                    all_hold(all, outcomes@, autocommit) == all_hold(
                        all.subrange(i as int, all.len() as int),
                        outcomes@,
                        autocommit,
                    ),
                decreases list.conds@.len() - i,
            {
                let ghost rest = all.subrange(i as int, all.len() as int);
                assert(rest.subrange(1, rest.len() as int) =~= all.subrange(
                    i + 1,
                    all.len() as int,
                ));
                assert(rest[0] == all[i as int]);
                assert(decreases_to!(*cond => list.conds@)) by {
                    assert(decreases_to!(*cond => cond->And_0));
                    assert(decreases_to!(*list => list.conds));
                    assert(decreases_to!(list.conds => list.conds@));
                }
                assert(decreases_to!(list.conds@ => list.conds@[i as int]));
                if !eval_cond(&list.conds[i], outcomes, autocommit) {
                    return false;
                }
                i = i + 1;
            }
            true
        },
        BatchCond::Or(list) => {
            let mut i: usize = 0;
            let ghost all = list.conds@;
            assert(all.subrange(0, all.len() as int) =~= all);
            while i < list.conds.len()
                invariant
                    i <= list.conds@.len(),
                    all == list.conds@,
                    *cond == BatchCond::Or(*list),
                    any_holds(all, outcomes@, autocommit) == any_holds(
                        all.subrange(i as int, all.len() as int),
                        outcomes@,
                        autocommit,
                    ),
                decreases list.conds@.len() - i,
            {
                let ghost rest = all.subrange(i as int, all.len() as int);
                assert(rest.subrange(1, rest.len() as int) =~= all.subrange(
                    i + 1,
                    all.len() as int,
                ));
                assert(rest[0] == all[i as int]);
                assert(decreases_to!(*cond => list.conds@)) by {
                    assert(decreases_to!(*cond => cond->Or_0));
                    assert(decreases_to!(*list => list.conds));
                    assert(decreases_to!(list.conds => list.conds@));
                }
                assert(decreases_to!(list.conds@ => list.conds@[i as int]));
                if eval_cond(&list.conds[i], outcomes, autocommit) {
                    return true;
                }
                i = i + 1;
            }
            false
        },
        BatchCond::IsAutocommit {  } => autocommit,
    }
}

// ---------------------------------------------------------------------------
// Statements by text or by number
// ---------------------------------------------------------------------------

/// The texts of stored statements, by their numbers.
pub open spec fn stored(sqls: Map<i32, String>) -> Map<i32, Seq<char>> {
    sqls.map_values(|s: String| s@)
}

/// The statement that a request means: its own text, or the one stored under
/// its number.
pub open spec fn statement_of(
    sql: Option<String>,
    sql_id: Option<i32>,
    sqls: Map<i32, Seq<char>>,
) -> Result<Seq<char>, Failure> {
    match (sql, sql_id) {
        (Some(sql), _) => Ok(sql@),
        (None, Some(id)) => if sqls.contains_key(id) {
            Ok(sqls[id])
        } else {
            Err(Failure { code: "SQL_STORE_MISSING"@, message: "stored SQL not found"@ })
        },
        (None, None) => Err(
            Failure { code: "SQLITE_MISUSE"@, message: "statement has neither sql nor sql_id"@ },
        ),
    }
}

/// The statement that a request means.
pub fn resolve_stmt(
    sql: Option<String>,
    sql_id: Option<i32>,
    sqls: &HashMap<i32, String>,
) -> (r: Result<String, StmtError>)
    ensures
        match statement_of(sql, sql_id, stored(sqls@)) {
            Ok(text) => r matches Ok(s) && s@ == text,
            Err(f) => r matches Err(e) && e@ == f,
        },
{
    match (sql, sql_id) {
        (Some(sql), _) => Ok(sql),
        (None, Some(id)) => {
            assert(stored(sqls@).contains_key(id) == sqls@.contains_key(id));
            match sqls.get(&id) {
                Some(sql) => Ok(sql.clone()),
                None => Err(StmtError::new("SQL_STORE_MISSING", "stored SQL not found")),
            }
        },
        (None, None) => Err(
            StmtError::new("SQLITE_MISUSE", "statement has neither sql nor sql_id"),
        ),
    }
}

/// A statement's failure as it is sent.
pub fn err_to_proto(e: StmtError) -> (r: Error)
    ensures
        r@ == e@,
{
    Error { message: e.message, code: e.code }
}

/// Why a statement is not stored, if it is not.
pub open spec fn store_refusal(id: i32, sql: Seq<char>, sqls: Map<i32, Seq<char>>) -> Option<
    Failure,
> {
    if sqls.contains_key(id) {
        Some(
            Failure {
                code: "SQL_STORE_EXISTS"@,
                message: "SQL with id "@ + signed_decimal(id as int) + " already stored"@,
            },
        )
    } else if sqls.len() >= MAX_SQL_COUNT {
        Some(
            Failure {
                code: "SQL_STORE_TOO_MANY"@,
                message: "The server already stores "@ + decimal(sqls.len())
                    + " SQL texts, it cannot store more"@,
            },
        )
    } else if encode_utf8(sql).len() > MAX_STORED_SQL {
        Some(
            Failure {
                code: "SQL_STORE_TOO_LARGE"@,
                message: "The statement is too large to be stored"@,
            },
        )
    } else {
        None
    }
}

fn check_store(id: i32, sql: &str, sqls: &HashMap<i32, String>) -> (r: Option<Error>)
    ensures
        match store_refusal(id, sql@, stored(sqls@)) {
            Some(f) => r matches Some(e) && e@ == f,
            None => r is None,
        },
{
    assert(stored(sqls@).contains_key(id) == sqls@.contains_key(id));
    assert(stored(sqls@).dom() =~= sqls@.dom());
    if sqls.contains_key(&id) {
        let mut message = "SQL with id ".to_owned();
        push_signed(&mut message, id as i64);
        message.append(" already stored");
        return Some(Error { message, code: "SQL_STORE_EXISTS".to_owned() });
    }
    let count: usize = sqls.len();
    if count >= MAX_SQL_COUNT {
        let mut message = "The server already stores ".to_owned();
        push_decimal(&mut message, count as u64);
        message.append(" SQL texts, it cannot store more");
        return Some(Error { message, code: "SQL_STORE_TOO_MANY".to_owned() });
    }
    if sql.as_bytes().len() > MAX_STORED_SQL {
        return Some(
            Error {
                message: "The statement is too large to be stored".to_owned(),
                code: "SQL_STORE_TOO_LARGE".to_owned(),
            },
        );
    }
    None
}

// ---------------------------------------------------------------------------
// The state of a pipeline
// ---------------------------------------------------------------------------

/// The answer to one request.
#[verifier::ext_equal]
pub enum Reply {
    Empty,
    Close,
    Execute(StmtResult),
    /// The steps' results and failures, and the replication index.
    Batch(Seq<Option<StmtResult>>, Seq<Option<Failure>>, Option<u64>),
    Sequence,
    Describe(DescribeResult),
    StoreSql,
    CloseSql,
    GetAutocommit(bool),
    Error(Failure),
}

pub open spec fn failures(errors: Seq<Option<Error>>) -> Seq<Option<Failure>> {
    errors.map_values(
        |e: Option<Error>|
            match e {
                Some(e) => Some(e@),
                None => None,
            },
    )
}

impl View for StreamResult {
    type V = Reply;

    open spec fn view(&self) -> Reply {
        match self {
            StreamResult::Empty => Reply::Empty,
            StreamResult::Error { error } => Reply::Error(error@),
            StreamResult::Success { response } => match response {
                StreamResponse::Close(_) => Reply::Close,
                StreamResponse::Execute(r) => Reply::Execute(r.result),
                StreamResponse::Batch(r) => Reply::Batch(
                    r.result.step_results@,
                    failures(r.result.step_errors@),
                    r.result.replication_index,
                ),
                StreamResponse::Sequence(_) => Reply::Sequence,
                StreamResponse::Describe(r) => Reply::Describe(r.result),
                StreamResponse::StoreSql(_) => Reply::StoreSql,
                StreamResponse::CloseSql(_) => Reply::CloseSql,
                StreamResponse::GetAutocommit(r) => Reply::GetAutocommit(r.is_autocommit),
            },
        }
    }
}

/// A batch in the midst of its steps.
#[verifier::ext_equal]
pub struct BatchRun {
    /// The steps that are left.
    pub steps: Seq<BatchStep>,
    pub results: Seq<Option<StmtResult>>,
    pub errors: Seq<Option<Failure>>,
    /// Which of the steps so far succeeded.
    pub outcomes: Seq<bool>,
}

impl BatchRun {
    /// The next step is off the list.
    pub open spec fn taken(self) -> BatchRun {
        BatchRun { steps: self.steps.drop_first(), ..self }
    }

    /// The step at hand came out that way.
    pub open spec fn next(
        self,
        result: Option<StmtResult>,
        error: Option<Failure>,
        outcome: bool,
    ) -> BatchRun {
        BatchRun {
            results: self.results.push(result),
            errors: self.errors.push(error),
            outcomes: self.outcomes.push(outcome),
            ..self
        }
    }
}

/// What a pipeline waits for.
#[derive(Clone, Copy, Debug, PartialEq, Eq, Structural)]
pub enum Waiting {
    /// Nothing: it goes on by itself.
    Nothing,
    /// That a transaction left open before is rolled back.
    Rollback,
    /// The outcome of a request's statement.
    Execute,
    Sequence,
    Describe,
    /// Whether the connection is outside a transaction.
    Autocommit,
    /// The same, for the condition of a batch's next step.
    Condition,
    /// The outcome of the statement of a batch's next step.
    Step,
}

/// A pipeline in the midst of its requests.
#[verifier::ext_equal]
pub struct Run {
    /// The requests that are left.
    pub todo: Seq<StreamRequest>,
    pub batch: Option<BatchRun>,
    pub results: Seq<Reply>,
    pub closed: bool,
    pub sqls: Map<i32, Seq<char>>,
    pub waiting: Waiting,
}

/// What is to be done for a pipeline.
#[verifier::ext_equal]
pub enum Task {
    Rollback,
    Execute { sql: Seq<char>, args: Seq<Value>, named_args: Seq<NamedArg>, want_rows: bool },
    Sequence(Seq<char>),
    Describe(Seq<char>),
    Autocommit,
    Finish,
}

pub open spec fn wanted(want_rows: Option<bool>) -> bool {
    match want_rows {
        Some(w) => w,
        None => true,
    }
}

impl Run {
    /// A pipeline of requests, on a connection that has those statements stored.
    pub open spec fn opened(
        requests: Seq<StreamRequest>,
        fresh: bool,
        sqls: Map<i32, Seq<char>>,
    ) -> Run {
        Run {
            todo: requests,
            batch: None,
            results: seq![],
            closed: false,
            sqls: if fresh {
                Map::empty()
            } else {
                sqls
            },
            waiting: if fresh {
                Waiting::Rollback
            } else {
                Waiting::Nothing
            },
        }
    }

    /// A request is answered.
    pub open spec fn replied(self, reply: Reply) -> Run {
        Run { results: self.results.push(reply), ..self }
    }

    pub open spec fn waits(self, waiting: Waiting) -> Run {
        Run { waiting, ..self }
    }

    pub open spec fn with_batch(self, batch: Option<BatchRun>) -> Run {
        Run { batch, ..self }
    }

    /// The next request is off the list.
    pub open spec fn taken(self) -> Run {
        Run { todo: self.todo.drop_first(), ..self }
    }

    /// The steps that are left of the batch at hand.
    pub open spec fn steps_left(self) -> nat {
        match self.batch {
            Some(b) => b.steps.len() + 1,
            None => 0,
        }
    }
}

/// What a request leads to: the state after it, and what is to be done for it
/// outside, if anything. A batch is only begun.
pub open spec fn begin_request(run: Run, request: StreamRequest) -> (Run, Option<Task>) {
    match request {
        StreamRequest::Empty => (
            run.replied(
                Reply::Error(
                    Failure { code: "EMPTY_STREAM_REQUEST"@, message: "empty stream request"@ },
                ),
            ),
            None,
        ),
        StreamRequest::Close(_) => (Run { closed: true, ..run.replied(Reply::Close) }, None),
        StreamRequest::Execute(r) => match statement_of(r.stmt.sql, r.stmt.sql_id, run.sqls) {
            Ok(sql) => (
                run.waits(Waiting::Execute),
                Some(
                    Task::Execute {
                        sql,
                        args: r.stmt.args@,
                        named_args: r.stmt.named_args@,
                        want_rows: wanted(r.stmt.want_rows),
                    },
                ),
            ),
            Err(f) => (run.replied(Reply::Error(f)), None),
        },
        StreamRequest::Batch(r) => (
            run.with_batch(
                Some(
                    BatchRun {
                        steps: r.batch.steps@,
                        results: seq![],
                        errors: seq![],
                        outcomes: seq![],
                    },
                ),
            ),
            None,
        ),
        StreamRequest::Sequence(r) => match statement_of(r.sql, r.sql_id, run.sqls) {
            Ok(sql) => (run.waits(Waiting::Sequence), Some(Task::Sequence(sql))),
            Err(f) => (run.replied(Reply::Error(f)), None),
        },
        StreamRequest::Describe(r) => match statement_of(r.sql, r.sql_id, run.sqls) {
            Ok(sql) => (run.waits(Waiting::Describe), Some(Task::Describe(sql))),
            Err(f) => (run.replied(Reply::Error(f)), None),
        },
        StreamRequest::StoreSql(r) => match store_refusal(r.sql_id, r.sql@, run.sqls) {
            Some(f) => (run.replied(Reply::Error(f)), None),
            None => (
                Run { sqls: run.sqls.insert(r.sql_id, r.sql@), ..run.replied(Reply::StoreSql) },
                None,
            ),
        },
        StreamRequest::CloseSql(r) => (
            Run { sqls: run.sqls.remove(r.sql_id), ..run.replied(Reply::CloseSql) },
            None,
        ),
        StreamRequest::GetAutocommit(_) => (
            run.waits(Waiting::Autocommit),
            Some(Task::Autocommit),
        ),
    }
}

/// What the statement of a batch's next step leads to. A statement that cannot
/// be told fails the whole batch.
pub open spec fn begin_step(run: Run, batch: BatchRun) -> (Run, Option<Task>) {
    let stmt = batch.steps[0].stmt;
    match statement_of(stmt.sql, stmt.sql_id, run.sqls) {
        Ok(sql) => (
            run.with_batch(Some(batch.taken())).waits(Waiting::Step),
            Some(
                Task::Execute {
                    sql,
                    args: stmt.args@,
                    named_args: stmt.named_args@,
                    want_rows: wanted(stmt.want_rows),
                },
            ),
        ),
        Err(f) => (run.with_batch(None).replied(Reply::Error(f)), None),
    }
}

/// One move of a pipeline that waits for nothing: on with the batch at hand,
/// or else to the next request.
pub open spec fn move_on(run: Run) -> (Run, Option<Task>) {
    match run.batch {
        Some(batch) => if batch.steps.len() == 0 {
            (run.with_batch(None).replied(Reply::Batch(batch.results, batch.errors, None)), None)
        } else if batch.steps[0].condition is Some {
            (run.waits(Waiting::Condition), Some(Task::Autocommit))
        } else {
            begin_step(run, batch)
        },
        None => if run.todo.len() == 0 {
            (run, Some(Task::Finish))
        } else {
            begin_request(run.taken(), run.todo[0])
        },
    }
}

/// A pipeline goes on until something is to be done outside.
pub open spec fn advance(run: Run) -> (Run, Task)
    decreases run.todo.len(), run.steps_left(),
{
    match move_on(run) {
        (next, Some(task)) => (next, task),
        (next, None) => advance(next),
    }
}

/// The first thing to be done for a pipeline.
pub open spec fn started(run: Run) -> (Run, Task) {
    if run.waiting == Waiting::Rollback {
        (run, Task::Rollback)
    } else {
        advance(run)
    }
}

/// What came of a task.
#[verifier::ext_equal]
pub enum Outcome {
    RolledBack,
    Executed(Result<StmtResult, Failure>),
    Sequenced(Result<(), Failure>),
    Described(Result<DescribeResult, Failure>),
    Autocommit(bool),
}

/// Whether a pipeline waits for that outcome.
pub open spec fn awaited(waiting: Waiting, outcome: Outcome) -> bool {
    match outcome {
        Outcome::RolledBack => waiting == Waiting::Rollback,
        Outcome::Executed(_) => waiting == Waiting::Execute || waiting == Waiting::Step,
        Outcome::Sequenced(_) => waiting == Waiting::Sequence,
        Outcome::Described(_) => waiting == Waiting::Describe,
        Outcome::Autocommit(_) => waiting == Waiting::Autocommit || waiting == Waiting::Condition,
    }
}

/// What the outcome of a task leads to.
pub open spec fn respond(run: Run, outcome: Outcome) -> (Run, Option<Task>) {
    let next = run.waits(Waiting::Nothing);
    let batch = run.batch->Some_0;
    match outcome {
        Outcome::RolledBack => (next, None),
        Outcome::Executed(Ok(result)) => if run.waiting == Waiting::Step {
            (next.with_batch(Some(batch.next(Some(result), None, true))), None)
        } else {
            (next.replied(Reply::Execute(result)), None)
        },
        Outcome::Executed(Err(f)) => if run.waiting == Waiting::Step {
            (next.with_batch(Some(batch.next(None, Some(f), false))), None)
        } else {
            (next.replied(Reply::Error(f)), None)
        },
        Outcome::Sequenced(Ok(_)) => (next.replied(Reply::Sequence), None),
        Outcome::Sequenced(Err(f)) => (next.replied(Reply::Error(f)), None),
        Outcome::Described(Ok(result)) => (next.replied(Reply::Describe(result)), None),
        Outcome::Described(Err(f)) => (next.replied(Reply::Error(f)), None),
        Outcome::Autocommit(autocommit) => if run.waiting == Waiting::Condition {
            if cond_holds(batch.steps[0].condition->Some_0, batch.outcomes, autocommit) {
                begin_step(next, batch)
            } else {
                (next.with_batch(Some(batch.taken().next(None, None, false))), None)
            }
        } else {
            (next.replied(Reply::GetAutocommit(autocommit)), None)
        },
    }
}

/// A pipeline goes on from the outcome of a task.
pub open spec fn resumed(run: Run, outcome: Outcome) -> (Run, Task) {
    match respond(run, outcome) {
        (next, Some(task)) => (next, task),
        (next, None) => advance(next),
    }
}

/// The state of a pipeline is sound: a step is waited for only while a batch is
/// at hand, a condition only where the batch's next step has one, and nothing
/// else while a batch is at hand.
pub open spec fn sound(run: Run) -> bool {
    &&& run.batch is Some ==> run.waiting == Waiting::Nothing || run.waiting == Waiting::Step
        || run.waiting == Waiting::Condition
    &&& run.waiting == Waiting::Step ==> run.batch is Some
    &&& run.waiting == Waiting::Condition ==> run.batch is Some
        && run.batch->Some_0.steps.len() > 0 && run.batch->Some_0.steps[0].condition is Some
}

// ---------------------------------------------------------------------------
// The executable pipeline
// ---------------------------------------------------------------------------

/// What is to be done for a pipeline.
#[derive(Debug, PartialEq, Eq)]
pub enum Action {
    /// To roll back a transaction that an abandoned request left open.
    Rollback,
    /// To run one statement.
    Execute { sql: String, args: StmtArgs, want_rows: bool },
    /// To run statements one after the other.
    Sequence { sql: String },
    /// To describe a statement.
    Describe { sql: String },
    /// To tell whether the connection is outside a transaction.
    Autocommit,
    /// Nothing more: the pipeline is finished.
    Finish,
}

impl View for Action {
    type V = Task;

    open spec fn view(&self) -> Task {
        match self {
            Action::Rollback => Task::Rollback,
            Action::Execute { sql, args, want_rows } => Task::Execute {
                sql: sql@,
                args: args.args@,
                named_args: args.named_args@,
                want_rows: *want_rows,
            },
            Action::Sequence { sql } => Task::Sequence(sql@),
            Action::Describe { sql } => Task::Describe(sql@),
            Action::Autocommit => Task::Autocommit,
            Action::Finish => Task::Finish,
        }
    }
}

/// What came of an action.
#[derive(Debug, PartialEq, Eq)]
pub enum Event {
    RolledBack,
    Executed(Result<StmtResult, StmtError>),
    Sequenced(Result<(), StmtError>),
    Described(Result<DescribeResult, StmtError>),
    Autocommit(bool),
}

impl View for Event {
    type V = Outcome;

    open spec fn view(&self) -> Outcome {
        match self {
            Event::RolledBack => Outcome::RolledBack,
            Event::Executed(Ok(result)) => Outcome::Executed(Ok(*result)),
            Event::Executed(Err(e)) => Outcome::Executed(Err(e@)),
            Event::Sequenced(Ok(_)) => Outcome::Sequenced(Ok(())),
            Event::Sequenced(Err(e)) => Outcome::Sequenced(Err(e@)),
            Event::Described(Ok(result)) => Outcome::Described(Ok(*result)),
            Event::Described(Err(e)) => Outcome::Described(Err(e@)),
            Event::Autocommit(autocommit) => Outcome::Autocommit(*autocommit),
        }
    }
}

/// A batch in the midst of its steps; the step to come is the last of `steps`.
struct BatchState {
    steps: Vec<BatchStep>,
    results: Vec<Option<StmtResult>>,
    errors: Vec<Option<Error>>,
    outcomes: Vec<bool>,
}

impl View for BatchState {
    type V = BatchRun;

    closed spec fn view(&self) -> BatchRun {
        BatchRun {
            steps: self.steps@.reverse(),
            results: self.results@,
            errors: failures(self.errors@),
            outcomes: self.outcomes@,
        }
    }
}

/// The requests of one body against one stream (connection).
pub struct Pipeline {
    /// The request to come is the last.
    todo: Vec<StreamRequest>,
    batch: Option<BatchState>,
    results: Vec<StreamResult>,
    closed: bool,
    sqls: HashMap<i32, String>,
    waiting: Waiting,
}

impl View for Pipeline {
    type V = Run;

    closed spec fn view(&self) -> Run {
        Run {
            todo: self.todo@.reverse(),
            batch: match self.batch {
                Some(b) => Some(b@),
                None => None,
            },
            results: views(self.results@),
            closed: self.closed,
            sqls: stored(self.sqls@),
            waiting: self.waiting,
        }
    }
}

proof fn reverse_pop<A>(s: Seq<A>)
    requires
        s.len() > 0,
    ensures
        s.reverse()[0] == s.last(),
        s.drop_last().reverse() == s.reverse().drop_first(),
        s.reverse().len() == s.len(),
{
    assert(s.drop_last().reverse() =~= s.reverse().drop_first());
}

fn reversed<T>(items: Vec<T>) -> (r: Vec<T>)
    ensures
        r@ == items@.reverse(),
{
    let mut items: Vec<T> = items;
    let ghost all = items@;
    let mut r: Vec<T> = Vec::new();
    assert(r@ =~= all.reverse().take(0));
    while items.len() > 0
        invariant
            items@ == all.take(items@.len() as int),
            items@.len() <= all.len(),
            r@ == all.reverse().take(all.len() - items@.len()),
        decreases items@.len(),
    {
        let ghost n = items@.len();
        if let Some(x) = items.pop() {
            r.push(x);
            assert(items@ =~= all.take(n - 1));
            assert(r@ =~= all.reverse().take(all.len() - (n - 1)));
        }
    }
    assert(all.reverse().take(all.len() as int) =~= all.reverse());
    r
}

fn error_result(e: StmtError) -> (r: StreamResult)
    ensures
        r@ == Reply::Error(e@),
{
    StreamResult::Error { error: err_to_proto(e) }
}

impl Pipeline {
    /// The pipeline keeps its state sound.
    pub closed spec fn wf(&self) -> bool {
        sound(self@)
    }

    /// A pipeline of the body's requests. A `fresh` one behaves like a fresh
    /// connection: a transaction left open by an earlier, abandoned request is
    /// rolled back and the stored statements are forgotten.
    pub fn new(req: PipelineReqBody, fresh: bool, sqls: HashMap<i32, String>) -> (r: Self)
        ensures
            r.wf(),
            r@ == Run::opened(req.requests@, fresh, stored(sqls@)),
    {
        let mut sqls: HashMap<i32, String> = sqls;
        if fresh {
            sqls.clear();
            assert(stored(sqls@) =~= Map::empty());
        }
        let waiting: Waiting = if fresh {
            Waiting::Rollback
        } else {
            Waiting::Nothing
        };
        let ghost requests = req.requests@;
        let todo = reversed(req.requests);
        assert(requests.reverse().reverse() =~= requests);
        let r = Pipeline { todo, batch: None, results: Vec::new(), closed: false, sqls, waiting };
        assert(r@.results =~= seq![]);
        r
    }

    /// The first thing to be done.
    pub fn start(&mut self) -> (r: Action)
        requires
            old(self).wf(),
            old(self)@.waiting == Waiting::Rollback || old(self)@.waiting == Waiting::Nothing,
        ensures
            final(self).wf(),
            (final(self)@, r@) == started(old(self)@),
    {
        if self.waiting == Waiting::Rollback {
            return Action::Rollback;
        }
        self.proceed()
    }

    fn proceed(&mut self) -> (r: Action)
        requires
            old(self).wf(),
            old(self)@.waiting == Waiting::Nothing,
        ensures
            final(self).wf(),
            (final(self)@, r@) == advance(old(self)@),
    {
        loop
            invariant
                self.wf(),
                self@.waiting == Waiting::Nothing,
                advance(self@) == advance(old(self)@),
            decreases self@.todo.len(), self@.steps_left(),
        {
            match self.make_move() {
                Some(action) => {
                    return action;
                },
                None => {},
            }
        }
    }

    fn make_move(&mut self) -> (r: Option<Action>)
        requires
            old(self).wf(),
            old(self)@.waiting == Waiting::Nothing,
        ensures
            final(self).wf(),
            match move_on(old(self)@) {
                (next, Some(task)) => r matches Some(a) && a@ == task && final(self)@ == next,
                (next, None) => r is None && final(self)@ == next && next.waiting
                    == Waiting::Nothing,
            },
    {
        match self.batch.take() {
            Some(state) => {
                if state.steps.len() == 0 {
                    assert(state@.steps =~= seq![]);
                    let result = BatchResult {
                        step_results: state.results,
                        step_errors: state.errors,
                        replication_index: None,
                    };
                    self.results.push(
                        StreamResult::Success {
                            response: StreamResponse::Batch(BatchStreamResp { result }),
                        },
                    );
                    assert(self@ =~= move_on(old(self)@).0);
                    return None;
                }
                proof {
                    reverse_pop(state.steps@);
                }
                if state.steps[state.steps.len() - 1].condition.is_some() {
                    self.batch = Some(state);
                    self.waiting = Waiting::Condition;
                    assert(self@ =~= move_on(old(self)@).0);
                    return Some(Action::Autocommit);
                }
                self.begin_step(state)
            },
            None => {
                if self.todo.len() == 0 {
                    assert(self@.todo =~= seq![]);
                    return Some(Action::Finish);
                }
                proof {
                    reverse_pop(self.todo@);
                }
                match self.todo.pop() {
                    Some(request) => {
                        assert(self.todo@ =~= old(self).todo@.drop_last());
                        assert(self@ =~= old(self)@.taken());
                        self.begin_request(request)
                    },
                    None => None,
                }
            },
        }
    }

    fn begin_step(&mut self, state: BatchState) -> (r: Option<Action>)
        requires
            old(self)@.waiting == Waiting::Nothing,
            old(self)@.batch is None,
            state@.steps.len() > 0,
        ensures
            final(self).wf(),
            match begin_step(old(self)@.with_batch(Some(state@)), state@) {
                (next, Some(task)) => r matches Some(a) && a@ == task && final(self)@ == next,
                (next, None) => r is None && final(self)@ == next && next.waiting
                    == Waiting::Nothing,
            },
    {
        let mut state: BatchState = state;
        let ghost before = state@;
        proof {
            reverse_pop(state.steps@);
        }
        match state.steps.pop() {
            Some(step) => {
                assert(state@ =~= before.taken());
                let BatchStep { condition: _, stmt } = step;
                match resolve_stmt(stmt.sql, stmt.sql_id, &self.sqls) {
                    Ok(sql) => {
                        let want_rows: bool = match stmt.want_rows {
                            Some(w) => w,
                            None => true,
                        };
                        let args = StmtArgs { args: stmt.args, named_args: stmt.named_args };
                        self.batch = Some(state);
                        self.waiting = Waiting::Step;
                        Some(Action::Execute { sql, args, want_rows })
                    },
                    Err(e) => {
                        self.results.push(error_result(e));
                        None
                    },
                }
            },
            None => None,
        }
    }

    fn begin_request(&mut self, request: StreamRequest) -> (r: Option<Action>)
        requires
            old(self).wf(),
            old(self)@.waiting == Waiting::Nothing,
            old(self)@.batch is None,
        ensures
            final(self).wf(),
            match begin_request(old(self)@, request) {
                (next, Some(task)) => r matches Some(a) && a@ == task && final(self)@ == next,
                (next, None) => r is None && final(self)@ == next && next.waiting
                    == Waiting::Nothing,
            },
    {
        match request {
            StreamRequest::Empty => {
                let error = Error {
                    message: "empty stream request".to_owned(),
                    code: "EMPTY_STREAM_REQUEST".to_owned(),
                };
                self.results.push(StreamResult::Error { error });
                None
            },
            StreamRequest::Close(_) => {
                self.closed = true;
                self.results.push(
                    StreamResult::Success { response: StreamResponse::Close(CloseStreamResp {  }) },
                );
                None
            },
            StreamRequest::Execute(req) => {
                let stmt = req.stmt;
                match resolve_stmt(stmt.sql, stmt.sql_id, &self.sqls) {
                    Ok(sql) => {
                        let want_rows: bool = match stmt.want_rows {
                            Some(w) => w,
                            None => true,
                        };
                        let args = StmtArgs { args: stmt.args, named_args: stmt.named_args };
                        self.waiting = Waiting::Execute;
                        Some(Action::Execute { sql, args, want_rows })
                    },
                    Err(e) => {
                        self.results.push(error_result(e));
                        None
                    },
                }
            },
            StreamRequest::Batch(req) => {
                let ghost steps = req.batch.steps@;
                let state = BatchState {
                    steps: reversed(req.batch.steps),
                    results: Vec::new(),
                    errors: Vec::new(),
                    outcomes: Vec::new(),
                };
                proof {
                    assert(steps.reverse().reverse() =~= steps);
                    assert(failures(state.errors@) =~= seq![]);
                }
                self.batch = Some(state);
                None
            },
            StreamRequest::Sequence(req) => match resolve_stmt(req.sql, req.sql_id, &self.sqls) {
                Ok(sql) => {
                    self.waiting = Waiting::Sequence;
                    Some(Action::Sequence { sql })
                },
                Err(e) => {
                    self.results.push(error_result(e));
                    None
                },
            },
            StreamRequest::Describe(req) => match resolve_stmt(req.sql, req.sql_id, &self.sqls) {
                Ok(sql) => {
                    self.waiting = Waiting::Describe;
                    Some(Action::Describe { sql })
                },
                Err(e) => {
                    self.results.push(error_result(e));
                    None
                },
            },
            StreamRequest::StoreSql(req) => {
                match check_store(req.sql_id, req.sql.as_str(), &self.sqls) {
                    Some(error) => {
                        self.results.push(StreamResult::Error { error });
                    },
                    None => {
                        let ghost before = self.sqls@;
                        self.sqls.insert(req.sql_id, req.sql);
                        assert(stored(self.sqls@) =~= stored(before).insert(
                            req.sql_id,
                            req.sql@,
                        ));
                        self.results.push(
                            StreamResult::Success {
                                response: StreamResponse::StoreSql(StoreSqlStreamResp {  }),
                            },
                        );
                    },
                }
                None
            },
            StreamRequest::CloseSql(req) => {
                let ghost before = self.sqls@;
                self.sqls.remove(&req.sql_id);
                assert(stored(self.sqls@) =~= stored(before).remove(req.sql_id));
                self.results.push(
                    StreamResult::Success {
                        response: StreamResponse::CloseSql(CloseSqlStreamResp {  }),
                    },
                );
                None
            },
            StreamRequest::GetAutocommit(_) => {
                self.waiting = Waiting::Autocommit;
                Some(Action::Autocommit)
            },
        }
    }

    /// What is to be done next, after the outcome of the last action.
    pub fn resume(&mut self, event: Event) -> (r: Action)
        requires
            old(self).wf(),
            awaited(old(self)@.waiting, event@),
        ensures
            final(self).wf(),
            (final(self)@, r@) == resumed(old(self)@, event@),
    {
        match self.take_event(event) {
            Some(action) => action,
            None => self.proceed(),
        }
    }

    fn take_event(&mut self, event: Event) -> (r: Option<Action>)
        requires
            old(self).wf(),
            awaited(old(self)@.waiting, event@),
        ensures
            final(self).wf(),
            match respond(old(self)@, event@) {
                (next, Some(task)) => r matches Some(a) && a@ == task && final(self)@ == next,
                (next, None) => r is None && final(self)@ == next && next.waiting
                    == Waiting::Nothing,
            },
    {
        let waiting: Waiting = self.waiting;
        self.waiting = Waiting::Nothing;
        match event {
            Event::RolledBack => None,
            Event::Executed(outcome) => {
                if waiting == Waiting::Step {
                    self.step_done(outcome);
                    return None;
                }
                let result = match outcome {
                    Ok(result) => StreamResult::Success {
                        response: StreamResponse::Execute(ExecuteStreamResp { result }),
                    },
                    Err(e) => error_result(e),
                };
                self.results.push(result);
                None
            },
            Event::Sequenced(outcome) => {
                let result = match outcome {
                    Ok(_) => StreamResult::Success {
                        response: StreamResponse::Sequence(SequenceStreamResp {  }),
                    },
                    Err(e) => error_result(e),
                };
                self.results.push(result);
                None
            },
            Event::Described(outcome) => {
                let result = match outcome {
                    Ok(result) => StreamResult::Success {
                        response: StreamResponse::Describe(DescribeStreamResp { result }),
                    },
                    Err(e) => error_result(e),
                };
                self.results.push(result);
                None
            },
            Event::Autocommit(autocommit) => {
                if waiting == Waiting::Condition {
                    return self.condition_known(autocommit);
                }
                self.results.push(
                    StreamResult::Success {
                        response: StreamResponse::GetAutocommit(
                            GetAutocommitStreamResp { is_autocommit: autocommit },
                        ),
                    },
                );
                None
            },
        }
    }

    fn step_done(&mut self, outcome: Result<StmtResult, StmtError>)
        requires
            old(self)@.waiting == Waiting::Nothing,
            old(self)@.batch is Some,
        ensures
            final(self).wf(),
            final(self)@ == old(self)@.with_batch(
                Some(
                    match outcome {
                        Ok(result) => old(self)@.batch->Some_0.next(Some(result), None, true),
                        Err(e) => old(self)@.batch->Some_0.next(None, Some(e@), false),
                    },
                ),
            ),
    {
        if let Some(mut state) = self.batch.take() {
            let ghost before = state@;
            match outcome {
                Ok(result) => {
                    state.results.push(Some(result));
                    state.errors.push(None);
                    state.outcomes.push(true);
                    assert(state@ =~= before.next(Some(result), None, true));
                },
                Err(e) => {
                    let ghost f = e@;
                    state.results.push(None);
                    state.errors.push(Some(err_to_proto(e)));
                    state.outcomes.push(false);
                    assert(state@ =~= before.next(None, Some(f), false));
                },
            }
            self.batch = Some(state);
        }
    }

    fn condition_known(&mut self, autocommit: bool) -> (r: Option<Action>)
        requires
            old(self)@.waiting == Waiting::Nothing,
            sound(old(self)@.waits(Waiting::Condition)),
        ensures
            final(self).wf(),
            match respond(
                old(self)@.waits(Waiting::Condition),
                Outcome::Autocommit(autocommit),
            ) {
                (next, Some(task)) => r matches Some(a) && a@ == task && final(self)@ == next,
                (next, None) => r is None && final(self)@ == next && next.waiting
                    == Waiting::Nothing,
            },
    {
        if let Some(mut state) = self.batch.take() {
            let ghost before = state@;
            proof {
                reverse_pop(state.steps@);
            }
            let enabled: bool = match &state.steps[state.steps.len() - 1].condition {
                Some(cond) => eval_cond(cond, &state.outcomes, autocommit),
                None => true,
            };
            if enabled {
                return self.begin_step(state);
            }
            state.steps.pop();
            state.results.push(None);
            state.errors.push(None);
            state.outcomes.push(false);
            assert(state@ =~= before.taken().next(None, None, false));
            self.batch = Some(state);
        }
        None
    }

    /// The response, whether the client closed the stream, and the statements
    /// that are stored. The stream's layer sets the baton.
    pub fn finish(self) -> (r: (PipelineRespBody, bool, HashMap<i32, String>))
        ensures
            r.0.baton is None,
            r.0.base_url is None,
            views(r.0.results@) == self@.results,
            r.1 == self@.closed,
            stored(r.2@) == self@.sqls,
            r.2@.dom() == self@.sqls.dom(),
    {
        assert(stored(self.sqls@).dom() =~= self.sqls@.dom());
        let body = PipelineRespBody { baton: None, base_url: None, results: self.results };
        (body, self.closed, self.sqls)
    }
}

// ---------------------------------------------------------------------------
// What holds of every pipeline
// ---------------------------------------------------------------------------

/// Requests that are begun and not answered yet.
pub open spec fn begun(run: Run) -> nat {
    if run.batch is Some || run.waiting == Waiting::Execute || run.waiting == Waiting::Sequence
        || run.waiting == Waiting::Describe || run.waiting == Waiting::Autocommit {
        1
    } else {
        0
    }
}

/// All requests: those answered, those left and the one begun.
pub open spec fn requests(run: Run) -> nat {
    run.results.len() + run.todo.len() + begun(run)
}

/// What every move keeps: the answers given so far, the number of requests,
/// that the stream is closed, and the bound on what is stored.
pub open spec fn keeps(before: Run, after: Run) -> bool {
    &&& requests(after) == requests(before)
    &&& before.results.len() <= after.results.len()
    &&& after.results.take(before.results.len() as int) == before.results
    &&& before.closed ==> after.closed
    &&& before.sqls.dom().finite() && before.sqls.len() <= MAX_SQL_COUNT
        ==> after.sqls.dom().finite() && after.sqls.len() <= MAX_SQL_COUNT
}

proof fn keeps_trans(a: Run, b: Run, c: Run)
    requires
        keeps(a, b),
        keeps(b, c),
    ensures
        keeps(a, c),
{
    assert(c.results.take(a.results.len() as int) =~= b.results.take(a.results.len() as int));
}

proof fn move_keeps(run: Run)
    requires
        sound(run),
        run.waiting == Waiting::Nothing,
    ensures
        keeps(run, move_on(run).0),
        sound(move_on(run).0),
        move_on(run).1 is None ==> move_on(run).0.waiting == Waiting::Nothing,
        move_on(run).1 == Some(Task::Finish) ==> run.todo.len() == 0 && move_on(run).0 == run
            && run.batch is None,
{
    let next = move_on(run).0;
    assert(next.results.take(run.results.len() as int) =~= run.results);
}

proof fn advance_keeps(run: Run)
    requires
        sound(run),
        run.waiting == Waiting::Nothing,
    ensures
        keeps(run, advance(run).0),
        sound(advance(run).0),
        advance(run).1 == Task::Finish ==> advance(run).0.todo.len() == 0 && begun(advance(run).0)
            == 0,
    decreases run.todo.len(), run.steps_left(),
{
    move_keeps(run);
    if move_on(run).1 is None {
        let next = move_on(run).0;
        advance_keeps(next);
        keeps_trans(run, next, advance(next).0);
    }
}

proof fn respond_keeps(run: Run, outcome: Outcome)
    requires
        sound(run),
        awaited(run.waiting, outcome),
    ensures
        keeps(run, respond(run, outcome).0),
        sound(respond(run, outcome).0),
        respond(run, outcome).1 is None ==> respond(run, outcome).0.waiting == Waiting::Nothing,
        respond(run, outcome).1 != Some(Task::Finish),
{
    let next = respond(run, outcome).0;
    assert(next.results.take(run.results.len() as int) =~= run.results);
}

/// However a pipeline goes, from one outcome to the next: no answer given is
/// taken back, no request is lost or answered twice, a closed stream stays
/// closed, and a stream never stores more statements than it may. When it is
/// finished every request has its answer, in the order of the requests.
pub proof fn resuming_keeps(run: Run, outcome: Outcome)
    requires
        sound(run),
        awaited(run.waiting, outcome),
    ensures
        ({
            let (next, task) = resumed(run, outcome);
            &&& keeps(run, next)
            &&& sound(next)
            &&& task == Task::Finish ==> next.results.len() == requests(run)
        }),
{
    respond_keeps(run, outcome);
    if respond(run, outcome).1 is None {
        let mid = respond(run, outcome).0;
        advance_keeps(mid);
        keeps_trans(run, mid, advance(mid).0);
    }
}

/// The same from the start.
pub proof fn starting_keeps(run: Run)
    requires
        sound(run),
        run.waiting == Waiting::Nothing,
    ensures
        ({
            let (next, task) = advance(run);
            &&& keeps(run, next)
            &&& sound(next)
            &&& task == Task::Finish ==> next.results.len() == requests(run)
        }),
{
    advance_keeps(run);
}

/// A request to close marks the stream closed and is answered; no other
/// request does.
pub proof fn only_close_closes(run: Run, request: StreamRequest)
    ensures
        begin_request(run, request).0.closed == (run.closed || request is Close),
{
}

/// A step whose condition fails is skipped: it has neither a result nor an
/// error, and counts as not succeeded for the conditions after it.
pub proof fn failed_condition_skips(run: Run, autocommit: bool)
    requires
        sound(run),
        run.waiting == Waiting::Condition,
        !cond_holds(
            run.batch->Some_0.steps[0].condition->Some_0,
            run.batch->Some_0.outcomes,
            autocommit,
        ),
    ensures
        ({
            let batch = run.batch->Some_0;
            let (next, task) = respond(run, Outcome::Autocommit(autocommit));
            &&& task is None
            &&& next.batch == Some(
                BatchRun {
                    steps: batch.steps.drop_first(),
                    results: batch.results.push(None),
                    errors: batch.errors.push(None),
                    outcomes: batch.outcomes.push(false),
                },
            )
        }),
{
}

/// Conditions obey the laws of logic: a negation holds where its condition
/// does not, a step that has come out has succeeded or failed and not both,
/// and one that has not come out has done neither.
pub proof fn conditions_are_logical(cond: BatchCond, step: u32, outcomes: Seq<bool>, autocommit: bool)
    ensures
        cond matches BatchCond::Not { cond: inner } ==> cond_holds(cond, outcomes, autocommit)
            == !cond_holds(*inner, outcomes, autocommit),
        step < outcomes.len() ==> cond_holds(
            BatchCond::Succeeded { step },
            outcomes,
            autocommit,
        ) != cond_holds(BatchCond::Failed { step }, outcomes, autocommit),
        step >= outcomes.len() ==> !cond_holds(BatchCond::Succeeded { step }, outcomes, autocommit)
            && !cond_holds(BatchCond::Failed { step }, outcomes, autocommit),
{
}

proof fn all_hold_each(conds: Seq<BatchCond>, outcomes: Seq<bool>, autocommit: bool)
    ensures
        all_hold(conds, outcomes, autocommit) == (forall|i: int|
            0 <= i < conds.len() ==> cond_holds(#[trigger] conds[i], outcomes, autocommit)),
        any_holds(conds, outcomes, autocommit) == (exists|i: int|
            0 <= i < conds.len() && cond_holds(#[trigger] conds[i], outcomes, autocommit)),
    decreases conds.len(),
{
    if conds.len() > 0 {
        let rest = conds.subrange(1, conds.len() as int);
        all_hold_each(rest, outcomes, autocommit);
        assert forall|i: int| 0 < i < conds.len() implies conds[i] == rest[i - 1] by {}
        if all_hold(conds, outcomes, autocommit) {
            assert forall|i: int| 0 <= i < conds.len() implies cond_holds(
                #[trigger] conds[i],
                outcomes,
                autocommit,
            ) by {
                if i > 0 {
                    assert(conds[i] == rest[i - 1]);
                }
            }
        } else if cond_holds(conds[0], outcomes, autocommit) {
            let i = choose|i: int|
                0 <= i < rest.len() && !cond_holds(#[trigger] rest[i], outcomes, autocommit);
            assert(conds[i + 1] == rest[i]);
        }
        if any_holds(conds, outcomes, autocommit) {
            if !cond_holds(conds[0], outcomes, autocommit) {
                let i = choose|i: int|
                    0 <= i < rest.len() && cond_holds(#[trigger] rest[i], outcomes, autocommit);
                assert(conds[i + 1] == rest[i]);
            }
        } else {
            assert forall|i: int| 0 <= i < conds.len() implies !cond_holds(
                #[trigger] conds[i],
                outcomes,
                autocommit,
            ) by {
                if i > 0 {
                    assert(conds[i] == rest[i - 1]);
                }
            }
        }
    }
}

/// A conjunction holds where each of its conditions does, a disjunction where
/// one of them does.
pub proof fn lists_are_logical(list: BatchCondList, outcomes: Seq<bool>, autocommit: bool)
    ensures
        cond_holds(BatchCond::And(list), outcomes, autocommit) == (forall|i: int|
            0 <= i < list.conds@.len() ==> cond_holds(
                #[trigger] list.conds@[i],
                outcomes,
                autocommit,
            )),
        cond_holds(BatchCond::Or(list), outcomes, autocommit) == (exists|i: int|
            0 <= i < list.conds@.len() && cond_holds(
                #[trigger] list.conds@[i],
                outcomes,
                autocommit,
            )),
{
    all_hold_each(list.conds@, outcomes, autocommit);
}

} // verus!
