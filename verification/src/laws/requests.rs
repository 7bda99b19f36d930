//! Pipelines, seen from the request body: what is asked of the connection is
//! what the request or step at hand says, and what came of it is what the client
//! is answered, request for request and step for step.

use crate::error::Failure;
use crate::hrana::proto::{
    BatchCond, BatchStep, CloseSqlStreamReq, Stmt, StmtResult, StoreSqlStreamReq, StreamRequest,
};
use crate::pipeline::{
    advance, awaited, begin_request, begin_step, begun, cond_holds, move_on, respond, resumed,
    sound, started, statement_of, store_refusal, stored, BatchRun, Outcome, Reply, Run, Task,
    Waiting,
};
use vstd::prelude::*;
use vstd::utf8::encode_utf8;

verus! {

// ---------------------------------------------------------------------------
// Where a pipeline stands
// ---------------------------------------------------------------------------

/// Whether a reply is one to that request: of its kind or a failure, and for a
/// batch with an entry for each step.
pub open spec fn answers(request: StreamRequest, reply: Reply) -> bool {
    match (request, reply) {
        (StreamRequest::Empty, Reply::Error(f)) => f.code == "EMPTY_STREAM_REQUEST"@,
        (StreamRequest::Close(_), Reply::Close) => true,
        (StreamRequest::Execute(_), Reply::Execute(_)) => true,
        (StreamRequest::Execute(_), Reply::Error(_)) => true,
        (StreamRequest::Batch(r), Reply::Batch(results, errors, index)) => results.len()
            == r.batch.steps@.len() && errors.len() == r.batch.steps@.len() && index is None,
        (StreamRequest::Batch(_), Reply::Error(_)) => true,
        (StreamRequest::Sequence(_), Reply::Sequence) => true,
        (StreamRequest::Sequence(_), Reply::Error(_)) => true,
        (StreamRequest::Describe(_), Reply::Describe(_)) => true,
        (StreamRequest::Describe(_), Reply::Error(_)) => true,
        (StreamRequest::StoreSql(_), Reply::StoreSql) => true,
        (StreamRequest::StoreSql(_), Reply::Error(_)) => true,
        (StreamRequest::CloseSql(_), Reply::CloseSql) => true,
        (StreamRequest::GetAutocommit(_), Reply::GetAutocommit(_)) => true,
        _ => false,
    }
}

/// The number of requests that are begun or done.
pub open spec fn passed(body: Seq<StreamRequest>, run: Run) -> int {
    body.len() - run.todo.len()
}

/// The request at hand.
pub open spec fn at_hand(body: Seq<StreamRequest>, run: Run) -> StreamRequest {
    body[passed(body, run) - 1]
}

/// The steps of the batch at hand.
pub open spec fn steps_at_hand(body: Seq<StreamRequest>, run: Run) -> Seq<BatchStep> {
    at_hand(body, run)->Batch_0.batch.steps@
}

/// The number of steps that are begun or done.
pub open spec fn steps_passed(body: Seq<StreamRequest>, run: Run) -> int {
    steps_at_hand(body, run).len() - run.batch->Some_0.steps.len()
}

/// Whether a batch at hand is that of the request at hand, with an entry for
/// each step that is done: a step succeeded exactly where it has a result, and
/// then it has no failure.
pub open spec fn batch_stands(body: Seq<StreamRequest>, run: Run) -> bool {
    let batch = run.batch->Some_0;
    let k = steps_passed(body, run);
    let done = if run.waiting == Waiting::Step {
        k - 1
    } else {
        k
    };
    &&& at_hand(body, run) is Batch
    &&& 0 <= done
    &&& batch.steps == steps_at_hand(body, run).skip(k)
    &&& batch.results.len() == done
    &&& batch.errors.len() == done
    &&& batch.outcomes.len() == done
    &&& forall|i: int|
        0 <= i < done ==> (#[trigger] batch.outcomes[i] <==> batch.results[i] is Some)
    &&& forall|i: int|
        0 <= i < done && (#[trigger] batch.results[i]) is Some ==> batch.errors[i] is None
}

/// Whether a pipeline stands where a body of requests has been worked off so
/// far: what is left is the end of the body, and what came before is answered,
/// one reply for each request, in order.
pub open spec fn stands(body: Seq<StreamRequest>, run: Run) -> bool {
    let n = passed(body, run);
    &&& 0 <= n
    &&& run.todo == body.skip(n)
    &&& run.results.len() + begun(run) == n
    &&& forall|i: int| 0 <= i < run.results.len() ==> answers(body[i], #[trigger] run.results[i])
    &&& run.batch is Some ==> batch_stands(body, run)
    &&& run.waiting == Waiting::Execute ==> at_hand(body, run) is Execute
    &&& run.waiting == Waiting::Sequence ==> at_hand(body, run) is Sequence
    &&& run.waiting == Waiting::Describe ==> at_hand(body, run) is Describe
    &&& run.waiting == Waiting::Autocommit ==> at_hand(body, run) is GetAutocommit
}

/// Whether a text is the one that a request means: its own, or else the one
/// stored under its number.
pub open spec fn means(
    text: Seq<char>,
    sql: Option<String>,
    sql_id: Option<i32>,
    sqls: Map<i32, Seq<char>>,
) -> bool {
    match sql {
        Some(own) => text == own@,
        None => sql_id matches Some(id) && sqls.contains_key(id) && text == sqls[id],
    }
}

/// Whether a task is to run that statement: its text, with its own positional
/// and named arguments, all of them and in order, and with rows unless it says
/// that it wants none.
pub open spec fn runs(task: Task, stmt: Stmt, sqls: Map<i32, Seq<char>>) -> bool {
    task matches Task::Execute { sql, args, named_args, want_rows } && means(
        sql,
        stmt.sql,
        stmt.sql_id,
        sqls,
    ) && args == stmt.args@ && named_args == stmt.named_args@ && (want_rows <==> stmt.want_rows
        != Some(false))
}

/// Whether a task is what the request or the step at hand asks for.
pub open spec fn asked(body: Seq<StreamRequest>, run: Run, task: Task) -> bool {
    match run.waiting {
        Waiting::Nothing => task == Task::Finish && run.todo.len() == 0 && run.batch is None,
        Waiting::Rollback => task == Task::Rollback,
        Waiting::Execute => runs(task, at_hand(body, run)->Execute_0.stmt, run.sqls),
        Waiting::Step => runs(
            task,
            steps_at_hand(body, run)[steps_passed(body, run) - 1].stmt,
            run.sqls,
        ),
        Waiting::Sequence => task matches Task::Sequence(text) && means(
            text,
            at_hand(body, run)->Sequence_0.sql,
            at_hand(body, run)->Sequence_0.sql_id,
            run.sqls,
        ),
        Waiting::Describe => task matches Task::Describe(text) && means(
            text,
            at_hand(body, run)->Describe_0.sql,
            at_hand(body, run)->Describe_0.sql_id,
            run.sqls,
        ),
        Waiting::Autocommit => task == Task::Autocommit,
        Waiting::Condition => task == Task::Autocommit,
    }
}

/// A pipeline starts with all requests of its body to do, in order, and nothing
/// answered. One on a fresh connection rolls back what was left open first, and
/// knows no stored statement; one that goes on keeps those it has.
pub proof fn pipelines_start_with_their_body(
    body: Seq<StreamRequest>,
    fresh: bool,
    sqls: Map<i32, Seq<char>>,
)
    ensures
        ({
            let run = Run::opened(body, fresh, sqls);
            &&& stands(body, run)
            &&& sound(run)
            &&& run.todo == body
            &&& run.results.len() == 0
            &&& !run.closed
            &&& fresh ==> run.sqls.dom().is_empty() && asked(body, run, Task::Rollback)
            &&& !fresh ==> run.sqls == sqls && run.waiting == Waiting::Nothing
        }),
{
    assert(body.skip(0) =~= body);
}

proof fn step_is_asked(body: Seq<StreamRequest>, run: Run, batch: BatchRun)
    requires
        stands(body, run),
        run.batch == Some(batch),
        run.waiting == Waiting::Nothing,
        batch.steps.len() > 0,
    ensures
        ({
            let (next, task) = begin_step(run, batch);
            &&& stands(body, next)
            &&& sound(next)
            &&& match task {
                Some(task) => asked(body, next, task) && next.waiting == Waiting::Step,
                None => next.waiting == Waiting::Nothing && next.batch is None,
            }
        }),
{
    let (next, task) = begin_step(run, batch);
    let steps = steps_at_hand(body, run);
    let k = steps_passed(body, run);
    assert(batch.steps[0] == steps[k]);
    if task is None {
        assert forall|i: int| 0 <= i < next.results.len() implies answers(
            body[i],
            #[trigger] next.results[i],
        ) by {
            if i < run.results.len() {
                assert(next.results[i] == run.results[i]);
            }
        }
    } else {
        assert(batch.steps.drop_first() =~= steps.skip(k + 1));
        assert(steps_passed(body, next) == k + 1);
    }
}

proof fn request_is_asked(body: Seq<StreamRequest>, run: Run)
    requires
        stands(body, run),
        sound(run),
        run.waiting == Waiting::Nothing,
        run.batch is None,
        run.todo.len() > 0,
    ensures
        ({
            let (next, task) = begin_request(run.taken(), run.todo[0]);
            &&& stands(body, next)
            &&& sound(next)
            &&& match task {
                Some(task) => asked(body, next, task) && next.waiting != Waiting::Nothing,
                None => next.waiting == Waiting::Nothing,
            }
        }),
{
    let n = passed(body, run);
    let request = run.todo[0];
    let (next, task) = begin_request(run.taken(), request);
    assert(request == body[n]);
    assert(run.todo.drop_first() =~= body.skip(n + 1));
    assert(passed(body, next) == n + 1);
    assert forall|i: int| 0 <= i < next.results.len() implies answers(
        body[i],
        #[trigger] next.results[i],
    ) by {
        if i < run.results.len() {
            assert(next.results[i] == run.results[i]);
        }
    }
    if let StreamRequest::Batch(r) = request {
        assert(r.batch.steps@.skip(0) =~= r.batch.steps@);
    }
}

proof fn move_is_asked(body: Seq<StreamRequest>, run: Run)
    requires
        stands(body, run),
        sound(run),
        run.waiting == Waiting::Nothing,
    ensures
        ({
            let (next, task) = move_on(run);
            &&& stands(body, next)
            &&& sound(next)
            &&& match task {
                Some(task) => asked(body, next, task),
                None => next.waiting == Waiting::Nothing,
            }
        }),
{
    let (next, task) = move_on(run);
    match run.batch {
        Some(batch) => {
            if batch.steps.len() == 0 {
                assert forall|i: int| 0 <= i < next.results.len() implies answers(
                    body[i],
                    #[trigger] next.results[i],
                ) by {
                    if i < run.results.len() {
                        assert(next.results[i] == run.results[i]);
                    }
                }
            } else if batch.steps[0].condition is None {
                step_is_asked(body, run, batch);
            }
        },
        None => {
            if run.todo.len() > 0 {
                request_is_asked(body, run);
            }
        },
    }
}

/// Whatever a pipeline asks of the connection is what the request at hand says,
/// or the step at hand of the batch at hand: its own statement with its own
/// arguments. It asks nothing more only where every request is answered.
pub proof fn pipelines_ask_what_was_requested(body: Seq<StreamRequest>, run: Run)
    requires
        stands(body, run),
        sound(run),
        run.waiting == Waiting::Nothing,
    ensures
        ({
            let (next, task) = advance(run);
            &&& stands(body, next)
            &&& sound(next)
            &&& asked(body, next, task)
            &&& task == Task::Finish ==> next.results.len() == body.len()
        }),
    decreases run.todo.len(), run.steps_left(),
{
    move_is_asked(body, run);
    if move_on(run).1 is None {
        pipelines_ask_what_was_requested(body, move_on(run).0);
    }
}

/// The same after the outcome of a task.
pub proof fn pipelines_go_on_with_what_was_requested(
    body: Seq<StreamRequest>,
    run: Run,
    outcome: Outcome,
)
    requires
        stands(body, run),
        sound(run),
        awaited(run.waiting, outcome),
    ensures
        ({
            let (next, task) = resumed(run, outcome);
            &&& stands(body, next)
            &&& sound(next)
            &&& asked(body, next, task)
            &&& task == Task::Finish ==> next.results.len() == body.len()
        }),
{
    outcome_is_taken(body, run, outcome);
    let (mid, task) = respond(run, outcome);
    if task is None {
        pipelines_ask_what_was_requested(body, mid);
    }
}

proof fn outcome_is_taken(body: Seq<StreamRequest>, run: Run, outcome: Outcome)
    requires
        stands(body, run),
        sound(run),
        awaited(run.waiting, outcome),
    ensures
        ({
            let (next, task) = respond(run, outcome);
            &&& stands(body, next)
            &&& sound(next)
            &&& match task {
                Some(task) => asked(body, next, task) && next.waiting == Waiting::Step,
                None => next.waiting == Waiting::Nothing,
            }
        }),
{
    let (next, task) = respond(run, outcome);
    if run.waiting == Waiting::Condition {
        let batch = run.batch->Some_0;
        let autocommit = outcome->Autocommit_0;
        if cond_holds(batch.steps[0].condition->Some_0, batch.outcomes, autocommit) {
            step_is_asked(body, run.waits(Waiting::Nothing), batch);
        } else {
            let steps = steps_at_hand(body, run);
            let k = steps_passed(body, run);
            assert(batch.steps.drop_first() =~= steps.skip(k + 1));
            assert(steps_passed(body, next) == k + 1);
        }
    } else if run.waiting == Waiting::Step {
        assert(steps_passed(body, next) == steps_passed(body, run));
    } else {
        assert forall|i: int| 0 <= i < next.results.len() implies answers(
            body[i],
            #[trigger] next.results[i],
        ) by {
            if i < run.results.len() {
                assert(next.results[i] == run.results[i]);
            }
        }
    }
}

// ---------------------------------------------------------------------------
// What the client is answered
// ---------------------------------------------------------------------------

proof fn move_keeps_results(run: Run)
    ensures
        ({
            let next = move_on(run).0;
            &&& run.results.len() <= next.results.len()
            &&& forall|i: int|
                0 <= i < run.results.len() ==> #[trigger] next.results[i] == run.results[i]
        }),
{
}

proof fn advance_keeps_results(run: Run)
    ensures
        ({
            let next = advance(run).0;
            &&& run.results.len() <= next.results.len()
            &&& forall|i: int|
                0 <= i < run.results.len() ==> #[trigger] next.results[i] == run.results[i]
        }),
    decreases run.todo.len(), run.steps_left(),
{
    move_keeps_results(run);
    if move_on(run).1 is None {
        let mid = move_on(run).0;
        advance_keeps_results(mid);
        assert forall|i: int| 0 <= i < run.results.len() implies #[trigger] advance(
            mid,
        ).0.results[i] == run.results[i] by {
            assert(mid.results[i] == run.results[i]);
        }
    }
}

/// What came of a request's statement is what the client is answered for that
/// request: its result or its failure, and for a connection outside a
/// transaction that it is.
pub proof fn outcomes_are_answered(run: Run, outcome: Outcome)
    requires
        sound(run),
        awaited(run.waiting, outcome),
        run.waiting != Waiting::Rollback,
        run.waiting != Waiting::Step,
        run.waiting != Waiting::Condition,
    ensures
        ({
            let next = resumed(run, outcome).0;
            let reply = next.results[run.results.len() as int];
            &&& next.results.len() > run.results.len()
            &&& match outcome {
                Outcome::Executed(Ok(result)) => reply == Reply::Execute(result),
                Outcome::Executed(Err(f)) => reply == Reply::Error(f),
                Outcome::Sequenced(Ok(_)) => reply == Reply::Sequence,
                Outcome::Sequenced(Err(f)) => reply == Reply::Error(f),
                Outcome::Described(Ok(result)) => reply == Reply::Describe(result),
                Outcome::Described(Err(f)) => reply == Reply::Error(f),
                Outcome::Autocommit(autocommit) => reply == Reply::GetAutocommit(autocommit),
                Outcome::RolledBack => true,
            }
        }),
{
    let mid = respond(run, outcome).0;
    advance_keeps_results(mid);
    assert(advance(mid).0.results[run.results.len() as int] == mid.results[run.results.len() as int]);
}

/// Whether a batch has those results and failures for its first steps: while it
/// is at hand in its state, and afterwards in the reply. A batch fails as a
/// whole only where the statement of one of its steps cannot be told.
pub open spec fn batch_has(
    run: Run,
    next: Run,
    results: Seq<Option<StmtResult>>,
    errors: Seq<Option<Failure>>,
    rest: Seq<BatchStep>,
) -> bool {
    if next.results.len() == run.results.len() {
        &&& next.batch matches Some(b) && b.results == results && b.errors == errors
    } else {
        match next.results[run.results.len() as int] {
            Reply::Batch(shown, failed, index) => {
                &&& shown == results
                &&& failed == errors
                &&& index is None
                &&& rest.len() == 0
            },
            Reply::Error(f) => rest.len() > 0 && statement_of(
                rest[0].stmt.sql,
                rest[0].stmt.sql_id,
                run.sqls,
            ) == Err::<Seq<char>, _>(f),
            _ => false,
        }
    }
}

proof fn batch_goes_on(run: Run)
    requires
        run.batch is Some,
        run.waiting == Waiting::Nothing,
    ensures
        batch_has(
            run,
            advance(run).0,
            run.batch->Some_0.results,
            run.batch->Some_0.errors,
            run.batch->Some_0.steps,
        ),
{
    let mid = move_on(run).0;
    if move_on(run).1 is None {
        advance_keeps_results(mid);
        assert(advance(mid).0.results[run.results.len() as int] == mid.results[
            run.results.len() as int
        ]);
    }
}

/// What came of a step's statement is what the batch has for that step, in its
/// place: its result, or its failure and no result.
pub proof fn step_outcomes_are_kept(run: Run, outcome: Outcome)
    requires
        sound(run),
        run.waiting == Waiting::Step,
        outcome is Executed,
    ensures
        ({
            let batch = run.batch->Some_0;
            let next = resumed(run, outcome).0;
            match outcome->Executed_0 {
                Ok(result) => batch_has(
                    run,
                    next,
                    batch.results.push(Some(result)),
                    batch.errors.push(None),
                    batch.steps,
                ),
                Err(f) => batch_has(
                    run,
                    next,
                    batch.results.push(None),
                    batch.errors.push(Some(f)),
                    batch.steps,
                ),
            }
        }),
{
    let mid = respond(run, outcome).0;
    batch_goes_on(mid);
}

// ---------------------------------------------------------------------------
// Conditions
// ---------------------------------------------------------------------------

/// A condition on a step's success holds exactly where the step has a result,
/// one on its failure where it came out without one; an empty condition always
/// holds, and one on the connection where that is outside a transaction.
pub proof fn conditions_are_of_outcomes(
    body: Seq<StreamRequest>,
    run: Run,
    step: u32,
    autocommit: bool,
)
    requires
        stands(body, run),
        run.batch is Some,
    ensures
        ({
            let b = run.batch->Some_0;
            &&& cond_holds(BatchCond::Empty, b.outcomes, autocommit)
            &&& cond_holds(BatchCond::IsAutocommit {  }, b.outcomes, autocommit) == autocommit
            &&& cond_holds(BatchCond::Succeeded { step }, b.outcomes, autocommit) <==> step
                < b.results.len() && b.results[step as int] is Some
            &&& cond_holds(BatchCond::Failed { step }, b.outcomes, autocommit) <==> step
                < b.results.len() && b.results[step as int] is None
        }),
{
    let b = run.batch->Some_0;
    if step < b.results.len() {
        assert(b.outcomes[step as int] <==> b.results[step as int] is Some);
    }
}

/// A step runs exactly where it has no condition or its condition holds; else
/// it has neither a result nor a failure, and the batch goes on. A condition is
/// told by asking the connection first.
pub proof fn steps_run_where_their_condition_holds(run: Run, autocommit: bool)
    requires
        sound(run),
        run.batch is Some,
        run.batch->Some_0.steps.len() > 0,
    ensures
        ({
            let batch = run.batch->Some_0;
            let step = batch.steps[0];
            let told = statement_of(step.stmt.sql, step.stmt.sql_id, run.sqls);
            let held = resumed(run, Outcome::Autocommit(autocommit));
            &&& run.waiting == Waiting::Nothing && step.condition is None && told is Ok ==> runs(
                advance(run).1,
                step.stmt,
                run.sqls,
            ) && advance(run).0.waiting == Waiting::Step
            &&& run.waiting == Waiting::Nothing && step.condition is Some ==> advance(run).1
                == Task::Autocommit && advance(run).0 == run.waits(Waiting::Condition)
            &&& run.waiting == Waiting::Condition && cond_holds(
                step.condition->Some_0,
                batch.outcomes,
                autocommit,
            ) && told is Ok ==> runs(held.1, step.stmt, run.sqls) && held.0.waiting == Waiting::Step
            &&& run.waiting == Waiting::Condition && !cond_holds(
                step.condition->Some_0,
                batch.outcomes,
                autocommit,
            ) ==> batch_has(
                run,
                held.0,
                batch.results.push(None),
                batch.errors.push(None),
                batch.steps.drop_first(),
            )
        }),
{
    let batch = run.batch->Some_0;
    if run.waiting == Waiting::Condition && !cond_holds(
        batch.steps[0].condition->Some_0,
        batch.outcomes,
        autocommit,
    ) {
        batch_goes_on(respond(run, Outcome::Autocommit(autocommit)).0);
    }
}

// ---------------------------------------------------------------------------
// Stored statements
// ---------------------------------------------------------------------------

/// A request means its own text, or else the text stored under its number; one
/// that has neither, or a number under which nothing is stored, is refused.
pub proof fn requests_mean_their_statement(
    sql: Option<String>,
    sql_id: Option<i32>,
    sqls: Map<i32, Seq<char>>,
)
    ensures
        match statement_of(sql, sql_id, sqls) {
            Ok(text) => means(text, sql, sql_id, sqls),
            Err(f) => sql is None && match sql_id {
                Some(id) => !sqls.contains_key(id) && f.code == "SQL_STORE_MISSING"@,
                None => f.code == "SQLITE_MISUSE"@,
            },
        },
        sql is Some ==> statement_of(sql, sql_id, sqls) is Ok,
{
}

/// A statement is stored where its number is free, fewer than 50 are stored and
/// it has at most 5000 bytes, and in no other case; then requests of its number
/// mean it. Otherwise nothing changes.
pub proof fn stored_statements_are_found(run: Run, r: StoreSqlStreamReq, other: i32)
    ensures
        ({
            let next = begin_request(run, StreamRequest::StoreSql(r)).0;
            let free = !run.sqls.contains_key(r.sql_id) && run.sqls.len() < 50 && encode_utf8(
                r.sql@,
            ).len() <= 5000;
            &&& next.results.len() == run.results.len() + 1
            &&& free <==> next.results.last() == Reply::StoreSql
            &&& !free <==> next.results.last() is Error
            &&& free ==> statement_of(None, Some(r.sql_id), next.sqls) == Ok::<_, Failure>(r.sql@)
            &&& !free ==> next.sqls == run.sqls
            &&& other != r.sql_id ==> statement_of(None, Some(other), next.sqls) == statement_of(
                None,
                Some(other),
                run.sqls,
            )
            &&& next.closed == run.closed
        }),
{
}

/// What a refusal to store tells: that the number is taken, that there are too
/// many, or that the text is too large.
pub proof fn store_refusals_say_why(id: i32, sql: Seq<char>, sqls: Map<i32, Seq<char>>)
    ensures
        sqls.contains_key(id) ==> (store_refusal(id, sql, sqls) matches Some(f) && f.code
            == "SQL_STORE_EXISTS"@),
        !sqls.contains_key(id) && sqls.len() >= 50 ==> (store_refusal(id, sql, sqls) matches Some(f)
            && f.code == "SQL_STORE_TOO_MANY"@),
        !sqls.contains_key(id) && sqls.len() < 50 && encode_utf8(sql).len() > 5000 ==> (
        store_refusal(id, sql, sqls) matches Some(f) && f.code == "SQL_STORE_TOO_LARGE"@),
{
}

/// A statement that is closed is no longer found under its number; the others
/// are, and the request succeeds whether it was stored or not.
pub proof fn closed_statements_are_gone(run: Run, r: CloseSqlStreamReq, other: i32)
    ensures
        ({
            let next = begin_request(run, StreamRequest::CloseSql(r)).0;
            &&& next.results == run.results.push(Reply::CloseSql)
            &&& statement_of(None, Some(r.sql_id), next.sqls) is Err
            &&& other != r.sql_id ==> statement_of(None, Some(other), next.sqls) == statement_of(
                None,
                Some(other),
                run.sqls,
            )
        }),
{
}

/// No other request changes what is stored.
pub proof fn other_requests_store_nothing(run: Run, request: StreamRequest)
    requires
        !(request is StoreSql),
        !(request is CloseSql),
    ensures
        begin_request(run, request).0.sqls == run.sqls,
{
}

/// Nor does any outcome.
pub proof fn outcomes_store_nothing(run: Run, outcome: Outcome)
    ensures
        respond(run, outcome).0.sqls == run.sqls,
        respond(run, outcome).0.closed == run.closed,
{
}

/// A pipeline on a fresh connection starts with rolling back what was left open,
/// and any other with its first request.
pub proof fn pipelines_start(run: Run)
    ensures
        run.waiting == Waiting::Rollback ==> started(run) == (run, Task::Rollback),
        run.waiting == Waiting::Nothing ==> started(run) == advance(run),
        run.waiting == Waiting::Rollback ==> resumed(run, Outcome::RolledBack) == advance(
            run.waits(Waiting::Nothing),
        ),
{
}

/// The statements that a stream stores are seen under their numbers, as they
/// were written.
pub proof fn stored_statements_are_seen(sqls: Map<i32, String>, id: i32)
    ensures
        stored(sqls).contains_key(id) <==> sqls.contains_key(id),
        sqls.contains_key(id) ==> stored(sqls)[id] == sqls[id]@,
{
}

} // verus!
