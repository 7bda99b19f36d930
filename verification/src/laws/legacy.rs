//! The legacy endpoint, seen from the request: its statements run in order, each
//! with its own arguments, several of them in one transaction, and what they
//! gave is what is shown.

use crate::error::{Failure, Refusal};
use crate::hrana::proto::StmtResult;
use crate::http::{
    are_args, begins, column_name, controls, failed, gave, goes_on, header_text, legacy_refusal,
    meant, missing, name_refusal, shows, shows_result, sync_refusal, taken, Legacy, LegacyAction,
    LegacyRows, LegacyStatement, Meant, Stage,
};
use crate::namespace::{
    debug_char, debug_text, fault_text, is_namespace, name_fault, with_namespace, without_namespace,
    NamespaceError,
};
use vstd::prelude::*;

verus! {

/// How many statements of a request have begun.
pub open spec fn begun(body: Seq<LegacyStatement>, state: Legacy) -> int {
    body.len() - state.todo.len()
}

/// Whether a request of those statements stands there: what is left is the end
/// of the body, there is a result for each statement that ran, in order, and a
/// failure only where the request is being rolled back or is over.
pub open spec fn stands(body: Seq<LegacyStatement>, state: Legacy) -> bool {
    let n = begun(body, state);
    &&& 0 <= n
    &&& state.todo == body.skip(n)
    &&& state.multi <==> body.len() > 1
    &&& match state.stage {
        Stage::Start => n == 0 && state.results.len() == 0 && state.error is None,
        Stage::Opening => n == 0 && state.results.len() == 0 && state.error is None && state.multi,
        Stage::Running => n > 0 && state.results.len() == n - 1 && state.error is None,
        Stage::Committing => n == body.len() && state.results.len() == n && state.error is None
            && state.multi,
        Stage::RollingBack => state.error is Some && state.multi,
        Stage::Finished => state.error is None ==> n == body.len() && state.results.len() == n,
    }
}

/// Whether an action is what a request that stands there asks for: the next
/// statement with its own arguments, or the begin, the end or the rollback of
/// the transaction around several.
pub open spec fn asks(body: Seq<LegacyStatement>, state: Legacy, action: LegacyAction) -> bool {
    match state.stage {
        Stage::Start => false,
        Stage::Opening => action matches LegacyAction::Control(sql) && sql@ == "BEGIN IMMEDIATE"@,
        Stage::Running => {
            let stmt = body[begun(body, state) - 1];
            action matches LegacyAction::Execute { sql, args } && sql@ == stmt.q@ && are_args(
                args.args@,
                args.named_args@,
                stmt.params,
            )
        },
        Stage::Committing => action matches LegacyAction::Control(sql) && sql@ == "COMMIT"@,
        Stage::RollingBack => action matches LegacyAction::Control(sql) && sql@ == "ROLLBACK"@,
        Stage::Finished => action is Finish,
    }
}

proof fn going_on_asks(
    body: Seq<LegacyStatement>,
    before: Legacy,
    after: Legacy,
    action: LegacyAction,
)
    requires
        goes_on(before, after, action),
        0 <= begun(body, before),
        before.todo == body.skip(begun(body, before)),
        before.multi <==> body.len() > 1,
        before.error is None ==> before.results.len() == begun(body, before),
    ensures
        stands(body, after),
        asks(body, after, action),
        before.error is None && before.todo.len() > 0 ==> after.stage == Stage::Running,
        before.error is None && before.todo.len() == 0 && before.multi ==> after.stage
            == Stage::Committing,
        before.error is Some && before.multi ==> after.stage == Stage::RollingBack,
        !(before.error is None && before.todo.len() > 0) && !before.multi ==> after.stage
            == Stage::Finished,
        after.results == before.results,
        after.error == before.error,
{
    if before.has_next() {
        let n = begun(body, before);
        assert(before.todo[0] == body[n]);
        assert(before.todo.drop_first() =~= body.skip(n + 1));
    }
}

/// A request begins with its first statement, or where it has several with the
/// transaction around them; without any it is over.
pub proof fn legacy_requests_begin(
    body: Seq<LegacyStatement>,
    after: Legacy,
    action: LegacyAction,
)
    requires
        begins(Legacy::fresh(body), after, action),
    ensures
        stands(body, Legacy::fresh(body)),
        stands(body, after),
        asks(body, after, action),
        body.len() > 1 ==> after.stage == Stage::Opening,
        body.len() == 1 ==> after.stage == Stage::Running,
        body.len() == 0 ==> after.stage == Stage::Finished,
{
    let before = Legacy::fresh(body);
    assert(body.skip(0) =~= body);
    if !before.multi {
        going_on_asks(body, before, after, action);
    }
}

/// What a statement gave is shown at its place, and the request goes on with the
/// next statement; behind the last, the transaction is committed.
pub proof fn legacy_results_are_shown_in_order(
    body: Seq<LegacyStatement>,
    before: Legacy,
    result: StmtResult,
    after: Legacy,
    action: LegacyAction,
)
    requires
        stands(body, before),
        before.stage == Stage::Running,
        gave(before, result, after, action),
    ensures
        stands(body, after),
        asks(body, after, action),
        after.results.len() == before.results.len() + 1,
        after.results.drop_last() == before.results,
        shows_result(after.results.last(), result),
        begun(body, before) < body.len() ==> after.stage == Stage::Running && begun(body, after)
            == begun(body, before) + 1,
        begun(body, before) == body.len() && body.len() > 1 ==> after.stage == Stage::Committing,
        begun(body, before) == body.len() && body.len() <= 1 ==> after.stage == Stage::Finished,
{
    let shown = after.results.last();
    going_on_asks(
        body,
        (Legacy { results: before.results.push(shown), ..before }),
        after,
        action,
    );
    assert(after.results.drop_last() =~= before.results);
}

/// A statement that fails ends the request with its failure: no further
/// statement runs, and the transaction around several is rolled back.
pub proof fn legacy_failures_end_the_request(
    body: Seq<LegacyStatement>,
    before: Legacy,
    f: Failure,
    after: Legacy,
    action: LegacyAction,
)
    requires
        stands(body, before),
        before.stage == Stage::Running,
        failed(before, f, after, action),
    ensures
        stands(body, after),
        asks(body, after, action),
        after.error matches Some(e) && e.status == 500 && e.code == f.code && e.message
            == f.message,
        body.len() > 1 ==> after.stage == Stage::RollingBack,
        body.len() <= 1 ==> after.stage == Stage::Finished,
{
    going_on_asks(
        body,
        (Legacy { error: Some(legacy_refusal(f)), ..before }),
        after,
        action,
    );
}

/// A transaction that is begun is followed by the first statement, one that
/// cannot be committed by its rollback and a failure, and one that is over by
/// the answer.
pub proof fn legacy_transactions_are_ended(
    body: Seq<LegacyStatement>,
    before: Legacy,
    failure: Option<Failure>,
    after: Legacy,
    action: LegacyAction,
)
    requires
        stands(body, before),
        before.stage == Stage::Opening || before.stage == Stage::Committing || before.stage
            == Stage::RollingBack,
        controls(before, failure, after, action),
    ensures
        stands(body, after),
        asks(body, after, action),
        after.results == before.results,
        before.stage == Stage::Opening ==> after.stage == Stage::Running && (after.open
            <==> failure is None),
        before.stage == Stage::Committing && failure is None ==> after.stage == Stage::Finished
            && after.error is None,
        before.stage == Stage::Committing && before.open && failure is Some ==> after.stage
            == Stage::RollingBack && (after.error matches Some(e) && e.status == 500 && e.code
            == failure->Some_0.code && e.message == failure->Some_0.message),
        before.stage == Stage::RollingBack ==> after.stage == Stage::Finished && after.error
            == before.error,
{
    if before.stage == Stage::Opening {
        going_on_asks(body, (Legacy { open: failure is None, ..before }), after, action);
    }
}

/// A result is shown whole: each column under its name, and each value of each
/// row at its place.
pub proof fn results_are_shown_whole(shown: LegacyRows, result: StmtResult, i: int, j: int)
    requires
        shows_result(shown, result),
    ensures
        shown.columns@.len() == result.cols@.len(),
        shown.rows@.len() == result.rows@.len(),
        0 <= i < result.cols@.len() ==> match result.cols@[i].name {
            Some(name) => shown.columns@[i]@ == name@,
            None => shown.columns@[i]@.len() == 0,
        },
        0 <= i < result.rows@.len() ==> shown.rows@[i]@.len() == result.rows@[i].values@.len(),
        0 <= i < result.rows@.len() && 0 <= j < result.rows@[i].values@.len() ==> shows(
            shown.rows@[i]@[j],
            result.rows@[i].values@[j]@,
        ),
{
    assert(crate::model::views(shown.columns@).len() == shown.columns@.len());
    if 0 <= i < result.cols@.len() {
        assert(crate::model::views(shown.columns@)[i] == column_name(result.cols@[i]));
    }
}

/// A header's text is its bytes as characters, where all of them are visible
/// ASCII, spaces or tabs; else it is none.
pub proof fn headers_are_ascii(bytes: Seq<u8>, i: int)
    ensures
        match header_text(bytes) {
            Some(text) => text.len() == bytes.len() && (0 <= i < bytes.len() ==> text[i] as int
                == bytes[i] as int && (bytes[i] == 9 || 32 <= bytes[i] <= 126)),
            None => exists|k: int|
                0 <= k < bytes.len() && !(#[trigger] bytes[k] == 9 || 32 <= bytes[k] <= 126),
        },
{
    if header_text(bytes) is None {
        let k = choose|k: int|
            0 <= k < bytes.len() && !crate::http::is_header_byte(#[trigger] bytes[k]);
        assert(!(bytes[k] == 9 || 32 <= bytes[k] <= 126));
    } else if 0 <= i < bytes.len() {
        assert(crate::http::is_header_byte(bytes[i]));
    }
}

/// A name is refused, as a bad request, exactly where it is no namespace's name.
pub proof fn bad_names_are_refused(name: Seq<char>)
    ensures
        name_refusal(name) is Some <==> name_fault(name) is Some,
        name_refusal(name) matches Some(f) ==> f.status == 400 && f.code == "INVALID_NAMESPACE"@,
{
}

/// A request means the namespace that its header names, which must exist, and
/// without a header the one called `default`, which is made where it is not
/// there. A header that names none is a bad request.
pub proof fn requests_mean_their_namespace(bytes: Seq<u8>)
    ensures
        meant(None) == Ok::<_, Refusal>(Meant::Default("default"@)),
        match meant(Some(bytes)) {
            Ok(Meant::Existing(name)) => header_text(bytes) == Some(name) && name_fault(name)
                is None,
            Ok(Meant::Default(_)) => false,
            Err(f) => f.status == 400 && f.code == "INVALID_NAMESPACE"@ && (
            header_text(bytes) matches Some(name) ==> name_fault(name) is Some),
        },
{
}

/// A replica that names no namespace is answered with an internal error; any
/// other name is taken as it is.
pub proof fn bad_names_of_replicas_are_errors(name: Seq<char>)
    ensures
        sync_refusal(name) is Some <==> name_fault(name) is Some,
        sync_refusal(name) matches Some(f) ==> f.status == 500 && f.code == "INTERNAL_ERROR"@,
{
}

/// A namespace is created exactly where there is none of its name, and one that
/// is not there is told as such.
pub proof fn namespaces_are_created_once(name: Seq<char>, exists: bool)
    ensures
        taken(name, exists) is Some <==> exists,
        taken(name, exists) matches Some(f) ==> f.status == 409 && f.code == "NAMESPACE_EXISTS"@,
        missing(name).status == 404,
        missing(name).code == "NOT_FOUND"@,
{
}

/// What is served as a namespace from the disk is a directory with a namespace's
/// name and a database in it.
pub proof fn namespaces_have_a_database(name: Seq<char>, is_dir: bool, has_db: bool)
    ensures
        is_namespace(name, is_dir, has_db) <==> is_dir && has_db && name_fault(name) is None,
{
}

/// The answer is the failure of the request where it has one, and else all that
/// its statements gave, in order.
pub proof fn answers_are_results_or_the_failure(body: Seq<LegacyStatement>, state: Legacy)
    requires
        stands(body, state),
        state.stage == Stage::Finished,
    ensures
        match state.answer() {
            Ok(results) => state.error is None && results == state.results && results.len()
                == body.len(),
            Err(f) => state.error == Some(f),
        },
        state.error is Some ==> state.answer() is Err,
{
}

/// What is said of a name that is none tells what is wrong with it, and with a
/// character that may not stand there which.
pub proof fn name_faults_are_told(name: Seq<char>, c: char)
    ensures
        fault_text(NamespaceError::Empty, name) == "namespace name must not be empty"@,
        fault_text(NamespaceError::TooLong, name) == "namespace name too long"@,
        fault_text(NamespaceError::Invalid, name) == "invalid namespace name: "@ + debug_text(name),
        fault_text(NamespaceError::BadChar(c), name) == "invalid character "@ + debug_char(c)
            + " in namespace name: "@ + debug_text(name),
{
}

/// A namespace that is opened is found under its name until it is deleted, and
/// the others stay as they are.
pub proof fn open_namespaces_are_found<N>(
    open: Map<Seq<char>, N>,
    name: Seq<char>,
    namespace: N,
    other: Seq<char>,
)
    ensures
        with_namespace(open, name, namespace).contains_key(name),
        with_namespace(open, name, namespace)[name] == namespace,
        !without_namespace(open, name).contains_key(name),
        other != name ==> {
            &&& with_namespace(open, name, namespace).contains_key(other) <==> open.contains_key(
                other,
            )
            &&& without_namespace(open, name).contains_key(other) <==> open.contains_key(other)
            &&& open.contains_key(other) ==> with_namespace(open, name, namespace)[other]
                == open[other] && without_namespace(open, name)[other] == open[other]
        },
{
}

} // verus!
