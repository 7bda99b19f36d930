//! Capturing, from what SQLite's hooks report to the unit that a transaction is
//! recorded from: nothing that a committed statement did is left out.

use crate::binlog::value::Scalar;
use crate::binlog::{Op, Schemas, Table};
use crate::capture::{
    controls_txn, debug_words, nesting, only_rows, reported, schema_statements, unit_changes,
    unit_ddl, unknown, wants_schema, Captured, Changes, Nesting, Raw, Unit,
};
use crate::change::{all_events, fits, inverse, picked, resolved, row_events, shaped, Move};
use crate::convergence::{holds, moves_of, rows_of, schema_part, shapes_of, sqls_of, Act, Deed};
use crate::text::{decimal, signed_decimal};
use vstd::prelude::*;

verus! {

// ---------------------------------------------------------------------------
// The hook
// ---------------------------------------------------------------------------

/// Every change of a row of the main database that the hook reports is
/// captured, by SQLite's own numbers for its kinds, whatever the number of its
/// columns: under its table and rowids, an INSERT with the row after it, a
/// DELETE with the row before it and an UPDATE with both.
pub proof fn hooked_changes_are_captured(
    opcode: i32,
    count: i32,
    table: Seq<char>,
    rowid: i64,
    new_rowid: i64,
    old_row: Seq<Option<Scalar>>,
    new_row: Seq<Option<Scalar>>,
)
    requires
        count > 0,
    ensures
        ({
            let got = reported(
                opcode,
                count,
                "main"@,
                table,
                rowid,
                new_rowid,
                old_row,
                new_row,
            );
            &&& got is Some <==> opcode == 18 || opcode == 23 || opcode == 9
            &&& got matches Some(raw) ==> raw.table == table && raw.rowid == Some(rowid)
            &&& opcode == 18 ==> got->Some_0.op == Op::Insert && got->Some_0.new_row == Some(
                new_row,
            ) && got->Some_0.old_row is None && got->Some_0.new_rowid == Some(new_rowid)
            &&& opcode == 23 ==> got->Some_0.op == Op::Update && got->Some_0.new_row == Some(
                new_row,
            ) && got->Some_0.old_row == Some(old_row) && got->Some_0.new_rowid == Some(new_rowid)
            &&& opcode == 9 ==> got->Some_0.op == Op::Delete && got->Some_0.new_row is None
                && got->Some_0.old_row == Some(old_row)
        }),
{
}

/// Changes in other databases than the main one, and calls without columns, are
/// not captured.
pub proof fn other_databases_are_not_captured(
    opcode: i32,
    count: i32,
    database: Seq<char>,
    table: Seq<char>,
    rowid: i64,
    new_rowid: i64,
    old_row: Seq<Option<Scalar>>,
    new_row: Seq<Option<Scalar>>,
)
    requires
        database != "main"@ || count <= 0,
    ensures
        reported(opcode, count, database, table, rowid, new_rowid, old_row, new_row) is None,
{
}

/// A change that the hook reports fits its table, whatever the number of its
/// columns, where its images have a value for each of them.
pub proof fn hooked_changes_fit(
    opcode: i32,
    count: i32,
    name: Seq<char>,
    rowid: i64,
    new_rowid: i64,
    old_row: Seq<Option<Scalar>>,
    new_row: Seq<Option<Scalar>>,
    table: Table,
)
    requires
        table.columns.len() == table.is_pk.len(),
        table.columns.len() == table.generated.len(),
        table.columns.len() == old_row.len(),
        table.columns.len() == new_row.len(),
    ensures
        shaped(table),
        reported(
            opcode,
            count,
            "main"@,
            name,
            rowid,
            new_rowid,
            old_row,
            new_row,
        ) matches Some(raw) ==> fits(raw, table),
{
}

// ---------------------------------------------------------------------------
// Units
// ---------------------------------------------------------------------------

/// What is reported while a unit is open is buffered in it, all of it and in
/// order, and nothing else of the unit changes.
pub proof fn reported_rows_are_buffered(state: Captured, unit: Unit, rows: Seq<Raw>)
    requires
        state.unit == Some(unit),
    ensures
        state.with_rows(rows) == state.with_unit(
            Some(Unit { rows: unit.rows + rows, ..unit }),
        ),
    decreases rows.len(),
{
    if rows.len() == 0 {
        assert(unit.rows + rows =~= unit.rows);
        assert(state.with_unit(Some(unit)) =~= state);
    } else {
        reported_rows_are_buffered(state, unit, rows.drop_last());
        assert((unit.rows + rows.drop_last()).push(rows.last()) =~= unit.rows + rows);
    }
}

/// Every row of a statement gets the table it was made in, however many rows
/// there are, and none makes the unit worthless where all tables are known and
/// the rows fit them.
pub proof fn rows_get_their_tables(unit: Unit, tables: Map<Seq<char>, Table>)
    requires
        unit.shapes.len() <= unit.rows.len(),
        forall|i: int|
            unit.shapes.len() <= i < unit.rows.len() ==> tables.contains_key(
                (#[trigger] unit.rows[i]).table,
            ) && fits(unit.rows[i], tables[unit.rows[i].table]),
    ensures
        ({
            let after = unit.shaped_by(tables);
            &&& after == Unit { shapes: after.shapes, ..unit }
            &&& after.shapes.len() == unit.rows.len()
            &&& forall|i: int|
                0 <= i < unit.rows.len() ==> #[trigger] after.shapes[i] == if i
                    < unit.shapes.len() {
                    unit.shapes[i]
                } else {
                    tables[unit.rows[i].table]
                }
        }),
    decreases unit.rows.len() - unit.shapes.len(),
{
    if unit.shapes.len() < unit.rows.len() {
        let n = unit.shapes.len() as int;
        let raw = unit.rows[n];
        let next = Unit { shapes: unit.shapes.push(tables[raw.table]), ..unit };
        rows_get_their_tables(next, tables);
    }
}

/// A statement begins a unit where none is open, at the schema's version of that
/// time, and else goes on with the one that is. Its text is kept unless it only
/// controls transactions, and so is where its rows will start.
pub proof fn statements_are_noted(state: Captured, sql: Seq<char>, version: i64)
    ensures
        ({
            let after = state.started(sql, version).unit;
            let before = match state.unit {
                Some(unit) => unit,
                None => Unit::begun(version),
            };
            &&& after matches Some(unit) && {
                &&& unit.rows == before.rows
                &&& unit.shapes == before.shapes
                &&& unit.moves == before.moves
                &&& unit.at_start == before.at_start
                &&& unit.latest == before.latest
                &&& unit.savepoints == before.savepoints
                &&& unit.poisoned == before.poisoned
                &&& unit.snapshot == before.rows.len()
                &&& unit.stmt_snapshot == before.stmts.len()
                &&& controls_txn(sql) ==> unit.stmts == before.stmts
                &&& !controls_txn(sql) ==> unit.stmts == before.stmts.push(sql)
            }
            &&& state.unit is None ==> before.rows.len() == 0 && before.stmts.len() == 0
                && before.moves.len() == 0 && before.shapes.len() == 0 && !before.poisoned
                && before.at_start == version
            &&& state.started(sql, version).commit_pending == state.commit_pending
        }),
{
}

/// The tables that are looked up are those of rows whose table is not known:
/// each of them, and no other.
pub proof fn unknown_tables_are_looked_up(
    rows: Seq<Raw>,
    tables: Map<Seq<char>, Table>,
    t: Seq<char>,
)
    ensures
        unknown(rows, tables).contains(t) <==> !tables.contains_key(t) && exists|i: int|
            0 <= i < rows.len() && (#[trigger] rows[i]).table == t,
    decreases rows.len(),
{
    let some = unknown(rows, tables);
    if rows.len() > 0 {
        let before = rows.drop_last();
        let fewer = unknown(before, tables);
        unknown_tables_are_looked_up(before, tables, t);
        if some.contains(t) {
            let k = choose|k: int| 0 <= k < some.len() && some[k] == t;
            if k < fewer.len() {
                assert(fewer[k] == t);
                let i = choose|i: int| 0 <= i < before.len() && (#[trigger] before[i]).table == t;
                assert(rows[i].table == t);
            } else {
                assert(rows[rows.len() - 1].table == t);
            }
        }
        if !tables.contains_key(t) && exists|i: int|
            0 <= i < rows.len() && (#[trigger] rows[i]).table == t {
            let i = choose|i: int| 0 <= i < rows.len() && (#[trigger] rows[i]).table == t;
            if i < before.len() {
                assert(before[i].table == t);
                let k = choose|k: int| 0 <= k < fewer.len() && fewer[k] == t;
                assert(some[k] == t);
            } else {
                assert(some[fewer.len() as int] == t);
            }
        }
    }
}

/// Tables have to be looked up where rows were changed whose table is not known
/// yet, and where a statement may have altered tables that rows were changed in.
pub proof fn tables_are_looked_up_where_they_matter(unit: Unit, sql: Seq<char>)
    ensures
        !wants_schema(None, sql),
        unit.shapes.len() < unit.rows.len() ==> wants_schema(Some(unit), sql),
        unit.rows.len() > 0 && !only_rows(sql) && !controls_txn(sql) ==> wants_schema(
            Some(unit),
            sql,
        ),
        unit.shapes.len() >= unit.rows.len() && (unit.rows.len() == 0 || only_rows(sql)
            || controls_txn(sql)) ==> !wants_schema(Some(unit), sql),
{
}

/// What is known of tables holds for one version of the schema: at another one
/// nothing of it is left, and at the same one all of it.
pub proof fn tables_are_known_per_version(schemas: Schemas, version: i64)
    ensures
        schemas.refreshed(version).version == version,
        version == schemas.version ==> schemas.refreshed(version).tables == schemas.tables,
        version != schemas.version ==> schemas.refreshed(version).tables.dom().is_empty(),
{
}

// ---------------------------------------------------------------------------
// A statement outside a transaction
// ---------------------------------------------------------------------------

/// Row changes as they were made, each in the table that its name stands for.
pub open spec fn row_deeds(rows: Seq<Raw>, tables: Map<Seq<char>, Table>) -> Seq<Deed> {
    rows.map_values(|r: Raw| Deed::Row(r, tables[r.table]))
}

proof fn row_deeds_are(rows: Seq<Raw>, tables: Map<Seq<char>, Table>)
    ensures
        rows_of(row_deeds(rows, tables)) == rows,
        shapes_of(row_deeds(rows, tables)) == rows.map_values(|r: Raw| tables[r.table]),
        moves_of(row_deeds(rows, tables)).len() == 0,
        sqls_of(row_deeds(rows, tables)).len() == 0,
    decreases rows.len(),
{
    let deeds = row_deeds(rows, tables);
    let shapes = rows.map_values(|r: Raw| tables[r.table]);
    if rows.len() > 0 {
        let before = rows.drop_last();
        row_deeds_are(before, tables);
        assert(deeds.drop_last() =~= row_deeds(before, tables));
        assert(deeds.last() == Deed::Row(rows.last(), tables[rows.last().table]));
        assert(before.push(rows.last()) =~= rows);
        assert(before.map_values(|r: Raw| tables[r.table]).push(tables[rows.last().table])
            =~= shapes);
    } else {
        assert(rows_of(deeds) =~= rows);
        assert(shapes_of(deeds) =~= shapes);
    }
}

/// A statement that changes rows outside a transaction, and commits, leaves a
/// unit that holds all of its row changes, in order, with their tables.
pub proof fn committed_rows_are_held(
    state: Captured,
    sql: Seq<char>,
    version: i64,
    rows: Seq<Raw>,
    tables: Map<Seq<char>, Table>,
)
    requires
        state.unit is None,
        nesting(sql) is Nothing,
        only_rows(sql),
        rows.len() > 0,
        forall|i: int|
            0 <= i < rows.len() ==> tables.contains_key((#[trigger] rows[i]).table) && fits(
                rows[i],
                tables[rows[i].table],
            ),
    ensures
        ({
            let reported = state.started(sql, version).with_rows(rows);
            let shaped = reported.with_unit(Some(reported.unit->Some_0.shaped_by(tables)));
            let done = (Captured { commit_pending: true, ..shaped }).ran(sql).settled(version);
            &&& done.commit_pending
            &&& done.unit is Some
            &&& holds(done.unit->Some_0, row_deeds(rows, tables))
        }),
{
    let started = state.started(sql, version);
    let begun = started.unit->Some_0;
    reported_rows_are_buffered(started, begun, rows);
    let reported = started.with_rows(rows);
    let unit = reported.unit->Some_0;
    assert(unit.rows =~= rows);
    rows_get_their_tables(unit, tables);
    row_deeds_are(rows, tables);
    let after = unit.shaped_by(tables);
    assert(after.shapes =~= rows.map_values(|r: Raw| tables[r.table]));
    let deeds = row_deeds(rows, tables);
    assert(moves_of(deeds) =~= seq![]);
    assert(sqls_of(deeds) =~= seq![]);
    let shaped = reported.with_unit(Some(after));
    let done = (Captured { commit_pending: true, ..shaped }).ran(sql).settled(version);
    assert(schema_part(done.unit->Some_0) =~= seq![]);
}

/// A statement that changes the schema outside a transaction, and commits,
/// leaves a unit that holds it: its record has that statement as it was written,
/// and no other.
pub proof fn committed_schema_statement_is_held(
    state: Captured,
    sql: Seq<char>,
    version: i64,
    after: i64,
    act: Act,
)
    requires
        state.unit is None,
        nesting(sql) is Nothing,
        !only_rows(sql),
        !controls_txn(sql),
        after != version,
    ensures
        ({
            let started = state.started(sql, version);
            let done = (Captured { commit_pending: true, ..started }).ran(sql).settled(after);
            &&& done.commit_pending
            &&& done.unit is Some
            &&& holds(done.unit->Some_0, seq![Deed::Schema { sql, act, found: seq![] }])
            &&& unit_changes(done.unit->Some_0) matches Some(changes) && changes.rows.len() == 0
                && changes.ddl == seq![seq![sql]]
        }),
{
    let started = state.started(sql, version);
    let done = (Captured { commit_pending: true, ..started }).ran(sql).settled(after);
    let unit = done.unit->Some_0;
    let deeds = seq![Deed::Schema { sql, act, found: seq![] }];
    assert(unit.stmts =~= seq![sql]);
    assert(unit.stmts.drop_last() =~= Seq::<Seq<char>>::empty());
    assert(schema_statements(unit.stmts.drop_last()) =~= Seq::<Seq<char>>::empty());
    assert(schema_statements(unit.stmts) =~= seq![sql]);
    assert(deeds.drop_last() =~= Seq::<Deed>::empty());
    assert(rows_of(deeds.drop_last()) =~= unit.rows);
    assert(shapes_of(deeds.drop_last()) =~= unit.shapes);
    assert(moves_of(deeds.drop_last()) =~= Seq::<Move>::empty());
    assert(moves_of(deeds) =~= unit.moves);
    assert(sqls_of(deeds.drop_last()) =~= Seq::<Seq<char>>::empty());
    assert(sqls_of(deeds) =~= seq![sql]);
    assert(unit_ddl(unit) =~= seq![seq![sql]]);
}

/// A unit whose rows have their tables, and which is not worthless, makes a
/// record of all their events and of its schema changes; it makes none only
/// where there are neither.
pub proof fn committed_changes_make_a_record(unit: Unit)
    requires
        !unit.poisoned,
        unit.shapes.len() >= unit.rows.len(),
    ensures
        ({
            let events = all_events(unit.rows, unit.shapes, unit.moves, unit.rows.len());
            match unit_changes(unit) {
                Some(changes) => changes.rows == events && changes.ddl == unit_ddl(unit),
                None => events.len() == 0 && unit_ddl(unit).len() == 0,
            }
        }),
        unit.at_start != unit.latest && schema_statements(unit.stmts).len() > 0 ==> unit_ddl(unit)
            == seq![schema_statements(unit.stmts)],
        unit.at_start == unit.latest ==> unit_ddl(unit).len() == 0,
{
}

/// A statement in the midst of a transaction leaves the unit open, with all that
/// it gathered; the commit ends it at the schema's version of that time.
pub proof fn transactions_stay_open_until_they_end(
    state: Captured,
    unit: Unit,
    sql: Seq<char>,
    version: i64,
)
    requires
        state.unit == Some(unit),
        nesting(sql) is Nothing,
    ensures
        state.ran(sql) == state,
        state.commit_pending ==> state.ran(sql).settled(version).unit == Some(
            Unit { latest: version, ..unit },
        ),
        !state.commit_pending && unit.rows.len() == 0 ==> state.ran(sql).settled(version).unit
            is None,
        state.failed(true).unit is None,
        state.failed(false).unit == Some(unit.failed(false)),
{
}

// ---------------------------------------------------------------------------
// Rows under their tables
// ---------------------------------------------------------------------------

/// How many of the first `n` columns can be written.
pub open spec fn written_before(table: Table, n: int) -> nat
    decreases n,
{
    if n <= 0 {
        0
    } else {
        written_before(table, n - 1) + if table.generated[n - 1] {
            0nat
        } else {
            1nat
        }
    }
}

proof fn picked_at<A>(items: Seq<A>, table: Table, n: int, i: int)
    requires
        0 <= i < n <= table.generated.len(),
        n <= items.len(),
        !table.generated[i],
    ensures
        ({
            let some = picked(items, inverse(table.generated).take(n));
            &&& some.len() == written_before(table, n)
            &&& written_before(table, i) < some.len()
            &&& some[written_before(table, i) as int] == items[i]
        }),
    decreases n,
{
    let flags = inverse(table.generated);
    assert(flags.take(n).drop_last() =~= flags.take(n - 1));
    assert(flags.take(n).last() == !table.generated[n - 1]);
    picked_len(items, table, n - 1);
    if i < n - 1 {
        picked_at(items, table, n - 1, i);
    }
}

proof fn picked_len<A>(items: Seq<A>, table: Table, n: int)
    requires
        0 <= n <= table.generated.len(),
        n <= items.len(),
    ensures
        picked(items, inverse(table.generated).take(n)).len() == written_before(table, n),
    decreases n,
{
    let flags = inverse(table.generated);
    if n > 0 {
        assert(flags.take(n).drop_last() =~= flags.take(n - 1));
        assert(flags.take(n).last() == !table.generated[n - 1]);
        picked_len(items, table, n - 1);
    } else {
        assert(flags.take(n) =~= Seq::<bool>::empty());
    }
}

/// A row change in a table that is there, of however many columns, is one of
/// that table: of the same kind and row, with every column that can be written,
/// in order, and in each image the value of each of them.
pub proof fn rows_keep_their_columns(raw: Raw, table: Table, i: int)
    requires
        fits(raw, table),
        0 <= i < table.columns.len(),
        !table.generated[i],
    ensures
        ({
            let c = resolved(raw, table)->Some_0;
            let k = written_before(table, i) as int;
            &&& resolved(raw, table) is Some
            &&& c.table == raw.table
            &&& c.root == table.root
            &&& c.op == raw.op
            &&& c.rowid == raw.rowid
            &&& c.new_rowid == raw.new_rowid
            &&& c.columns.len() == written_before(table, table.columns.len() as int)
            &&& c.columns[k] == table.columns[i]
            &&& c.is_pk[k] == table.is_pk[i]
            &&& c.new_row is Some <==> raw.new_row is Some
            &&& c.old_row is Some <==> raw.old_row is Some
            &&& raw.new_row matches Some(values) ==> c.new_row->Some_0[k] == values[i]
            &&& raw.old_row matches Some(values) ==> c.old_row->Some_0[k] == values[i]
        }),
{
    let n = table.columns.len() as int;
    let flags = inverse(table.generated);
    assert(flags.take(n) =~= flags);
    picked_at(table.columns, table, n, i);
    picked_at(table.is_pk, table, n, i);
    if let Some(values) = raw.new_row {
        picked_at(values, table, n, i);
    }
    if let Some(values) = raw.old_row {
        picked_at(values, table, n, i);
    }
}

/// A row change makes events exactly where its table is there, and one or two:
/// none of it is lost, and it is lost with its table alone.
pub proof fn rows_make_events(raw: Raw, table: Table)
    ensures
        table.columns.len() > 0 <==> resolved(raw, table) is Some,
        resolved(raw, table) matches Some(c) ==> 1 <= row_events(Some(c)).len() <= 2,
        row_events(None).len() == 0,
{
}

/// After a rollback, of all or to a savepoint, nothing is taken for known of
/// tables: the schema may be another under the same version.
pub proof fn rollbacks_forget_tables(state: Captured, sql: Seq<char>)
    ensures
        state.forgetful().schema.tables.dom().is_empty(),
        state.forgetful().schema.version == state.schema.version,
        state.forgetful().unit == state.unit,
        state.forgetful().commit_pending == state.commit_pending,
        nesting(sql) is Back ==> state.ran(sql).schema.tables.dom().is_empty(),
        !(nesting(sql) is Back) ==> state.ran(sql).schema == state.schema,
{
}

/// What a statement does to savepoints it does to the unit: it opens one where
/// the unit stands, closes the innermost of its name with those in it, or goes
/// back to it.
pub proof fn savepoints_follow_statements(unit: Unit, sql: Seq<char>)
    ensures
        nesting(sql) matches Nesting::Open(name) ==> {
            let mark = unit.ran(sql).savepoints.last();
            &&& unit.ran(sql).savepoints.drop_last() == unit.savepoints
            &&& unit.ran(sql).savepoints.len() == unit.savepoints.len() + 1
            &&& mark.name == name
            &&& mark.rows == unit.rows.len()
            &&& mark.stmts == unit.stmts.len()
            &&& mark.moves == unit.moves.len()
            &&& unit.ran(sql).rows == unit.rows
            &&& unit.ran(sql).stmts == unit.stmts
        },
        nesting(sql) matches Nesting::Close(name) ==> unit.ran(sql) == unit.released(name),
        nesting(sql) matches Nesting::Back(name) ==> unit.ran(sql) == unit.rolled_back_to(name),
        nesting(sql) is Nothing ==> unit.ran(sql) == unit,
{
    if let Nesting::Open(name) = nesting(sql) {
        assert(unit.ran(sql).savepoints.drop_last() =~= unit.savepoints);
    }
}

/// Values in words: numbers in digits, texts as they are, and of bytes how many.
pub proof fn words_tell_of_values(v: Scalar, reals: Map<u64, Seq<char>>)
    ensures
        debug_words(None, reals) == "UNKNOWN"@,
        v is Null ==> debug_words(Some(v), reals) == "NULL"@,
        v matches Scalar::Integer(i) ==> debug_words(Some(v), reals) == signed_decimal(i as int),
        v matches Scalar::Float(bits) ==> debug_words(Some(v), reals) == reals[bits],
        v matches Scalar::Text(s) ==> debug_words(Some(v), reals) == s,
        v matches Scalar::Blob(b) ==> debug_words(Some(v), reals) == "<blob "@ + decimal(b.len())
            + " bytes>"@,
        v matches Scalar::RawText(b) ==> debug_words(Some(v), reals) == "<text "@ + decimal(b.len())
            + " bytes>"@,
{
}

/// A commit is recorded, whatever it changed: once its statement ran outside a
/// transaction the unit is to be finalized, what is recorded is what the unit
/// gathered up to the schema's version of that time, and the next statement
/// starts with nothing.
pub proof fn commits_are_recorded(state: Captured, unit: Unit, sql: Seq<char>, version: i64)
    requires
        state.unit == Some(unit),
        nesting(sql) is Nothing,
    ensures
        ({
            let done = state.committing().ran(sql);
            let (changes, after) = done.left(Some(version)).finalized();
            &&& done.commits(Some(version))
            &&& !done.commits(None)
            &&& done.left(None) == done
            &&& changes == unit_changes(Unit { latest: version, ..unit })
            &&& after.unit is None
            &&& !after.commit_pending
            &&& after.schema == state.schema
        }),
        !state.commit_pending ==> !state.ran(sql).commits(Some(version)),
{
}

/// A rollback leaves no unit and nothing known of tables; ending a unit leaves
/// what is known of them. Without a unit there is nothing to finalize.
pub proof fn ended_units_leave_nothing(state: Captured)
    ensures
        state.rolled_back().unit is None,
        state.rolled_back().schema.tables.dom().is_empty(),
        state.rolled_back().commit_pending == state.commit_pending,
        state.ended().unit is None,
        !state.ended().commit_pending,
        state.ended().schema == state.schema,
        state.committing().commit_pending,
        state.committing().unit == state.unit,
        state.committing().schema == state.schema,
        state.unit is None ==> state.finalized() == (None::<Changes>, state),
{
}

/// A table that was looked up is known under its name, and the others as before.
pub proof fn looked_up_tables_are_known(
    schemas: Schemas,
    name: Seq<char>,
    table: Table,
    other: Seq<char>,
)
    ensures
        schemas.with_table(name, table).tables.contains_key(name),
        schemas.with_table(name, table).tables[name] == table,
        schemas.with_table(name, table).version == schemas.version,
        other != name ==> (schemas.with_table(name, table).tables.contains_key(other)
            <==> schemas.tables.contains_key(other)),
        other != name && schemas.tables.contains_key(other) ==> schemas.with_table(
            name,
            table,
        ).tables[other] == schemas.tables[other],
{
}

} // verus!
