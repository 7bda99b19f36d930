//! What contracts say of a value they say of all of it: its view has every field
//! and every item, in order.

use crate::binlog::value::Scalar;
use crate::binlog::value;
use crate::binlog::{DdlEvent, RowEvent, TableInfo, Transaction, Value};
use crate::capture::{CaptureUnit, FinalizeResult, RawEvent};
use crate::change::{renamed_view, Renamed, TableMove};
use crate::error::{AppError, StmtError};
use crate::hrana::proto::{Datum, Error, StreamResponse, StreamResult};
use crate::model::views;
use crate::pipeline::{Action, Event, Outcome, Reply, Task};
use crate::sync::{SyncEvent, Told};
use vstd::prelude::*;

verus! {

/// The views of items are as many as the items, each the view of its own.
pub proof fn views_are_item_by_item<T: View>(items: Seq<T>, i: int)
    ensures
        views(items).len() == items.len(),
        0 <= i < items.len() ==> views(items)[i] == items[i]@,
{
}

/// A value of the binlog is seen by its kind, with all that it holds.
pub proof fn binlog_values_are_seen_whole(v: Value)
    ensures
        match v.value {
            None => v@ is None,
            Some(value::Value::Null(_)) => v@ == Some(Scalar::Null),
            Some(value::Value::Integer(i)) => v@ == Some(Scalar::Integer(i)),
            Some(value::Value::Float(bits)) => v@ == Some(Scalar::Float(bits)),
            Some(value::Value::Text(s)) => v@ == Some(Scalar::Text(s@)),
            Some(value::Value::Blob(b)) => v@ == Some(Scalar::Blob(b@)),
            Some(value::Value::RawText(b)) => v@ == Some(Scalar::RawText(b@)),
        },
{
}

/// So is a value that clients send or get.
pub proof fn client_values_are_seen_whole(v: crate::hrana::proto::Value)
    ensures
        match v {
            crate::hrana::proto::Value::Unset => v@ == Datum::Unset,
            crate::hrana::proto::Value::Null => v@ == Datum::Null,
            crate::hrana::proto::Value::Integer { value } => v@ == Datum::Integer(value),
            crate::hrana::proto::Value::Float { value } => v@ == Datum::Float(value),
            crate::hrana::proto::Value::Text { value } => v@ == Datum::Text(value@),
            crate::hrana::proto::Value::Blob { value } => v@ == Datum::Blob(value@),
        },
{
}

/// Records are seen with their LSN and time, all their row changes, column for
/// column, and all their schema changes, statement for statement.
pub proof fn records_are_seen_whole(tx: Transaction, row: RowEvent, ddl: DdlEvent, i: int)
    ensures
        tx@.lsn == tx.lsn,
        tx@.commit_ts_ms == tx.commit_ts_ms,
        tx@.rows.len() == tx.rows@.len(),
        tx@.ddl.len() == tx.ddl@.len(),
        0 <= i < tx.rows@.len() ==> tx@.rows[i] == tx.rows@[i]@,
        0 <= i < tx.ddl@.len() ==> tx@.ddl[i] == tx.ddl@[i]@,
        row@.table == row.table@,
        row@.op == row.op,
        row@.pk_columns.len() == row.pk_columns@.len(),
        row@.pk_values.len() == row.pk_values@.len(),
        row@.columns.len() == row.columns@.len(),
        row@.values.len() == row.values@.len(),
        0 <= i < row.pk_columns@.len() ==> row@.pk_columns[i] == row.pk_columns@[i]@,
        0 <= i < row.pk_values@.len() ==> row@.pk_values[i] == row.pk_values@[i]@,
        0 <= i < row.columns@.len() ==> row@.columns[i] == row.columns@[i]@,
        0 <= i < row.values@.len() ==> row@.values[i] == row.values@[i]@,
        ddl@.len() == ddl.statements@.len(),
        0 <= i < ddl.statements@.len() ==> ddl@[i] == ddl.statements@[i]@,
{
}

/// What is captured is seen whole: changes with their images, tables with their
/// columns, and units with all that they gathered.
pub proof fn captures_are_seen_whole(
    raw: RawEvent,
    table: TableInfo,
    unit: CaptureUnit,
    changes: FinalizeResult,
    i: int,
)
    ensures
        raw@.table == raw.table@,
        raw@.op == raw.op,
        raw@.rowid == raw.rowid,
        raw@.new_rowid == raw.new_rowid,
        raw.new_row matches Some(values) ==> raw@.new_row == Some(views(values@)),
        raw.old_row matches Some(values) ==> raw@.old_row == Some(views(values@)),
        raw.new_row is None <==> raw@.new_row is None,
        raw.old_row is None <==> raw@.old_row is None,
        table@.root == table.root,
        table@.columns == views(table.columns@),
        table@.is_pk == table.is_pk@,
        table@.generated == table.generated@,
        unit@.rows == views(unit.rows@),
        unit@.shapes == views(unit.shapes@),
        unit@.moves == views(unit.moves@),
        unit@.stmts == views(unit.stmts@),
        unit@.savepoints == views(unit.savepoints@),
        unit@.at_start == unit.schema_version_at_start,
        unit@.latest == unit.latest_schema_version,
        unit@.snapshot == unit.snapshot,
        unit@.stmt_snapshot == unit.stmt_snapshot,
        unit@.poisoned == unit.poisoned,
        changes@.rows == views(changes.rows@),
        changes@.ddl == views(changes.ddl@),
{
}

/// What a pipeline asks and what came of it are seen whole.
pub proof fn actions_are_seen_whole(action: Action, event: Event)
    ensures
        match action {
            Action::Rollback => action@ == Task::Rollback,
            Action::Execute { sql, args, want_rows } => action@ == (Task::Execute {
                sql: sql@,
                args: args.args@,
                named_args: args.named_args@,
                want_rows,
            }),
            Action::Sequence { sql } => action@ == Task::Sequence(sql@),
            Action::Describe { sql } => action@ == Task::Describe(sql@),
            Action::Autocommit => action@ == Task::Autocommit,
            Action::Finish => action@ == Task::Finish,
        },
        match event {
            Event::RolledBack => event@ == Outcome::RolledBack,
            Event::Executed(Ok(result)) => event@ == Outcome::Executed(Ok(result)),
            Event::Executed(Err(e)) => event@ == Outcome::Executed(Err(e@)),
            Event::Sequenced(Ok(_)) => event@ == Outcome::Sequenced(Ok(())),
            Event::Sequenced(Err(e)) => event@ == Outcome::Sequenced(Err(e@)),
            Event::Described(Ok(result)) => event@ == Outcome::Described(Ok(result)),
            Event::Described(Err(e)) => event@ == Outcome::Described(Err(e@)),
            Event::Autocommit(autocommit) => event@ == Outcome::Autocommit(autocommit),
        },
{
}

/// The answers of a pipeline are seen whole: results, and for a batch an entry
/// for each step.
pub proof fn answers_are_seen_whole(reply: StreamResult, i: int)
    ensures
        match reply {
            StreamResult::Empty => reply@ == Reply::Empty,
            StreamResult::Error { error } => reply@ == Reply::Error(error@),
            StreamResult::Success { response } => match response {
                StreamResponse::Close(_) => reply@ == Reply::Close,
                StreamResponse::Execute(r) => reply@ == Reply::Execute(r.result),
                StreamResponse::Batch(r) => reply@ matches Reply::Batch(results, errors, index)
                    && results == r.result.step_results@ && errors.len()
                    == r.result.step_errors@.len() && index == r.result.replication_index && (0
                    <= i < errors.len() ==> match r.result.step_errors@[i] {
                    Some(e) => errors[i] == Some(e@),
                    None => errors[i] is None,
                }),
                StreamResponse::Sequence(_) => reply@ == Reply::Sequence,
                StreamResponse::Describe(r) => reply@ == Reply::Describe(r.result),
                StreamResponse::StoreSql(_) => reply@ == Reply::StoreSql,
                StreamResponse::CloseSql(_) => reply@ == Reply::CloseSql,
                StreamResponse::GetAutocommit(r) => reply@ == Reply::GetAutocommit(r.is_autocommit),
            },
        },
{
}

/// Failures and events of the stream are seen whole.
pub proof fn failures_are_seen_whole(
    refusal: AppError,
    failure: StmtError,
    error: Error,
    event: SyncEvent,
)
    ensures
        refusal@.status == refusal.status,
        refusal@.code == refusal.code@,
        refusal@.message == refusal.message@,
        failure@.code == failure.code@,
        failure@.message == failure.message@,
        error@.code == error.code@,
        error@.message == error.message@,
        match event {
            SyncEvent::Tx(p) => event@ matches Told::Tx { lsn, statements } && lsn == p.lsn
                && statements == views(p.statements@),
            SyncEvent::Error { code, message } => event@ == (Told::Failed {
                code: code@,
                message: message@,
            }),
        },
{
}

/// What became of a table is seen by its name and its columns.
pub proof fn moves_are_seen_whole(becomes: Option<Renamed>, m: TableMove)
    ensures
        becomes matches Some(r) ==> renamed_view(becomes) == Some((r.name@, r.info@)),
        becomes is None <==> renamed_view(becomes) is None,
        m@.rows == m.rows,
        m@.root == m.root,
        m@.becomes == renamed_view(m.becomes),
{
}

} // verus!
