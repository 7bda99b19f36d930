//! Sync: what a replica is served. Each committed transaction becomes a list
//! of statements that are ready to apply: DDL verbatim, row changes as
//! statements with literal values (never the DML that was run, which may be
//! non-deterministic).

use crate::binlog::segment::{BinlogError, BinlogIter, Reader};
use crate::binlog::value::Scalar;
use crate::binlog::{Binlog, Log, Op, Row, RowEvent, Transaction, Tx, Value};
use crate::error::{AppError, Refusal};
use crate::model::{group_views, views};
use crate::sql::{
    decimals, joined, literal_of, push_quoted, quote_ident, quoted, renderable, sql_literal,
    trim_end,
};
use crate::text::{chars_of, decimal, push_decimal, same_text, text_of};
use std::collections::HashMap;
use vstd::prelude::*;

verus! {

broadcast use {group_views, vstd::std_specs::hash::group_hash_axioms};

/// Joins texts with `sep` between each two.
pub fn join(items: &Vec<String>, sep: &str) -> (r: String)
    ensures
        r@ == joined(views(items@), sep@),
{
    let ghost all = views(items@);
    let mut r = String::new();
    let mut i: usize = 0;
    assert(all.take(0) =~= seq![]);
    assert(r@ =~= joined(all.take(0), sep@));
    while i < items.len()
        invariant
            i <= items@.len(),
            all == views(items@),
            r@ == joined(all.take(i as int), sep@),
        decreases items@.len() - i,
    {
        if i > 0 {
            r.append(sep);
        }
        r.append(items[i].as_str());
        assert(all.take(i + 1).drop_last() =~= all.take(i as int));
        assert(r@ =~= joined(all.take(i + 1), sep@));
        i = i + 1;
    }
    assert(all.take(i as int) =~= all);
    r
}

pub open spec fn ident(name: Seq<char>) -> Seq<char> {
    quoted(name, '"')
}

pub open spec fn idents(names: Seq<Seq<char>>) -> Seq<Seq<char>> {
    names.map_values(|n: Seq<char>| ident(n))
}

fn quote_idents(names: &Vec<String>) -> (r: Vec<String>)
    ensures
        views(r@) == idents(views(names@)),
{
    let mut r: Vec<String> = Vec::new();
    let mut i: usize = 0;
    while i < names.len()
        invariant
            i <= names@.len(),
            r@.len() == i,
            forall|k: int| 0 <= k < i ==> (#[trigger] r@[k])@ == ident(names@[k]@),
        decreases names@.len() - i,
    {
        r.push(quote_ident(names[i].as_str()));
        i = i + 1;
    }
    assert(views(r@) =~= idents(views(names@)));
    r
}

pub open spec fn all_renderable(
    values: Seq<Option<Scalar>>,
    reals: Map<u64, Seq<char>>,
) -> bool {
    forall|i: int| 0 <= i < values.len() ==> renderable(#[trigger] values[i], reals)
}

pub open spec fn literals(
    values: Seq<Option<Scalar>>,
    reals: Map<u64, Seq<char>>,
) -> Seq<Seq<char>> {
    values.map_values(|v: Option<Scalar>| literal_of(v, reals))
}

fn sql_literals(values: &Vec<Value>, reals: &HashMap<u64, String>) -> (r: Vec<String>)
    requires
        all_renderable(views(values@), decimals(reals@)),
    ensures
        views(r@) == literals(views(values@), decimals(reals@)),
{
    let mut r: Vec<String> = Vec::new();
    let mut i: usize = 0;
    while i < values.len()
        invariant
            i <= values@.len(),
            r@.len() == i,
            all_renderable(views(values@), decimals(reals@)),
            forall|k: int|
                0 <= k < i ==> (#[trigger] r@[k])@ == literal_of(values@[k]@, decimals(reals@)),
        decreases values@.len() - i,
    {
        assert(renderable(views(values@)[i as int], decimals(reals@)));
        r.push(sql_literal(&values[i], reals));
        i = i + 1;
    }
    assert(views(r@) =~= literals(views(values@), decimals(reals@)));
    r
}

/// Where `x` first stands in `items`; their number where it does not.
pub open spec fn position(items: Seq<Seq<char>>, x: Seq<char>) -> nat
    decreases items.len(),
{
    if items.len() == 0 || items[0] == x {
        0
    } else {
        1 + position(items.skip(1), x)
    }
}

/// Where `x` first stands among `items`, if it does.
pub fn find(items: &Vec<String>, x: &str) -> (r: Option<usize>)
    ensures
        match r {
            Some(i) => i == position(views(items@), x@) && i < items@.len(),
            None => position(views(items@), x@) == items@.len(),
        },
{
    let ghost all = views(items@);
    let mut i: usize = 0;
    assert(all.skip(0) =~= all);
    while i < items.len()
        invariant
            i <= items@.len(),
            all == views(items@),
            i + position(all.skip(i as int), x@) == position(all, x@),
        decreases items@.len() - i,
    {
        assert(all.skip(i as int)[0] == items@[i as int]@);
        if same_text(items[i].as_str(), x) {
            return Some(i);
        }
        assert(all.skip(i as int).skip(1) =~= all.skip(i + 1));
        i = i + 1;
    }
    None
}

// ---------------------------------------------------------------------------
// Row changes
// ---------------------------------------------------------------------------

/// The columns that an upsert sets: those outside the primary key.
pub open spec fn assignable(columns: Seq<Seq<char>>, pk: Seq<Seq<char>>) -> Seq<Seq<char>>
    decreases columns.len(),
{
    if columns.len() == 0 {
        seq![]
    } else if position(pk, columns.last()) < pk.len() {
        assignable(columns.drop_last(), pk)
    } else {
        assignable(columns.drop_last(), pk).push(columns.last())
    }
}

/// What an upsert does to a row that is there already.
pub open spec fn on_conflict(columns: Seq<Seq<char>>, pk: Seq<Seq<char>>) -> Seq<char> {
    let names = assignable(columns, pk);
    if names.len() == 0 {
        "DO NOTHING"@
    } else {
        "DO UPDATE SET "@ + joined(
            names.map_values(|c: Seq<char>| ident(c) + " = excluded."@ + ident(c)),
            ", "@,
        )
    }
}

/// The value that identifies a row, for one column of its key: DELETE events
/// carry them apart, others among the after-image.
pub open spec fn key_value(r: Row, column: Seq<char>) -> Option<Scalar> {
    if r.pk_values.len() > 0 {
        r.pk_values[position(r.pk_columns, column) as int]
    } else {
        r.values[position(r.columns, column) as int]
    }
}

/// Whether the event holds the value for that column of its key.
pub open spec fn has_key_value(r: Row, column: Seq<char>) -> bool {
    if r.pk_values.len() > 0 {
        position(r.pk_columns, column) < r.pk_values.len()
    } else {
        position(r.columns, column) < r.columns.len() && position(r.columns, column)
            < r.values.len()
    }
}

/// An equation between a column and a value's literal.
pub open spec fn equation(
    column: Seq<char>,
    v: Option<Scalar>,
    reals: Map<u64, Seq<char>>,
) -> Seq<char> {
    ident(column) + " = "@ + literal_of(v, reals)
}

/// The condition that picks the event's row.
pub open spec fn where_clause(r: Row, reals: Map<u64, Seq<char>>) -> Seq<char> {
    joined(
        r.pk_columns.map_values(|c: Seq<char>| equation(c, key_value(r, c), reals)),
        " AND "@,
    )
}

/// The equations of an after-image, a column and its value each.
pub open spec fn assignments(r: Row, reals: Map<u64, Seq<char>>) -> Seq<Seq<char>> {
    let n = if r.columns.len() < r.values.len() {
        r.columns.len()
    } else {
        r.values.len()
    };
    Seq::new(n, |i: int| equation(r.columns[i], r.values[i], reals))
}

/// The statement that makes the event's change.
pub open spec fn row_statement(r: Row, reals: Map<u64, Seq<char>>) -> Seq<char> {
    if r.op == Op::Insert.number() {
        "INSERT INTO "@ + ident(r.table) + " ("@ + joined(idents(r.columns), ", "@) + ") VALUES ("@
            + joined(literals(r.values, reals), ", "@) + ") ON CONFLICT("@ + joined(
            idents(r.pk_columns),
            ", "@,
        ) + ") "@ + on_conflict(r.columns, r.pk_columns) + ";"@
    } else if r.op == Op::Update.number() {
        "UPDATE "@ + ident(r.table) + " SET "@ + joined(assignments(r, reals), ", "@) + " WHERE "@
            + where_clause(r, reals) + ";"@
    } else {
        "DELETE FROM "@ + ident(r.table) + " WHERE "@ + where_clause(r, reals) + ";"@
    }
}

/// Whether the event can be rendered: its kind is known, an UPDATE or DELETE
/// names the row, and the doubles have their decimal forms.
pub open spec fn row_renderable(r: Row, reals: Map<u64, Seq<char>>) -> bool {
    &&& exists|op: Op| #[trigger] op.number() == r.op
    &&& all_renderable(r.values, reals)
    &&& all_renderable(r.pk_values, reals)
    &&& r.op != Op::Insert.number() ==> forall|i: int|
        0 <= i < r.pk_columns.len() ==> has_key_value(r, #[trigger] r.pk_columns[i])
}

fn conflict_clause(columns: &Vec<String>, pk: &Vec<String>) -> (r: String)
    ensures
        r@ == on_conflict(views(columns@), views(pk@)),
{
    let ghost all = views(columns@);
    let ghost pks = views(pk@);
    let mut sets: Vec<String> = Vec::new();
    let ghost mut names: Seq<Seq<char>> = seq![];
    let mut i: usize = 0;
    assert(all.take(0) =~= seq![]);
    while i < columns.len()
        invariant
            i <= columns@.len(),
            all == views(columns@),
            pks == views(pk@),
            names == assignable(all.take(i as int), pks),
            sets@.len() == names.len(),
            forall|k: int|
                0 <= k < names.len() ==> (#[trigger] sets@[k])@ == ident(names[k]) + " = excluded."@
                    + ident(names[k]),
        decreases columns@.len() - i,
    {
        let c = columns[i].as_str();
        assert(all.take(i + 1).drop_last() =~= all.take(i as int));
        assert(all.take(i + 1).last() == c@);
        if find(pk, c).is_none() {
            let mut set = quote_ident(c);
            set.append(" = excluded.");
            push_quoted(&mut set, c, '"');
            sets.push(set);
            proof {
                names = names.push(c@);
            }
        }
        i = i + 1;
    }
    assert(all.take(i as int) =~= all);
    if sets.len() == 0 {
        return "DO NOTHING".to_owned();
    }
    assert(views(sets@) =~= names.map_values(
        |c: Seq<char>| ident(c) + " = excluded."@ + ident(c),
    ));
    let mut r = "DO UPDATE SET ".to_owned();
    r.append(join(&sets, ", ").as_str());
    r
}

fn push_equation(out: &mut String, column: &str, v: &Value, reals: &HashMap<u64, String>)
    requires
        renderable(v@, decimals(reals@)),
    ensures
        final(out)@ == old(out)@ + equation(column@, v@, decimals(reals@)),
{
    push_quoted(out, column, '"');
    out.append(" = ");
    out.append(sql_literal(v, reals).as_str());
    assert(out@ =~= old(out)@ + equation(column@, v@, decimals(reals@)));
}

/// The condition that picks a row by its key. For DELETE the key's values are
/// stored directly; for UPDATE they are among the after-image's columns.
pub fn row_where(row: &RowEvent, reals: &HashMap<u64, String>) -> (r: String)
    requires
        all_renderable(row@.values, decimals(reals@)),
        all_renderable(row@.pk_values, decimals(reals@)),
        forall|i: int|
            0 <= i < row@.pk_columns.len() ==> has_key_value(row@, #[trigger] row@.pk_columns[i]),
    ensures
        r@ == where_clause(row@, decimals(reals@)),
{
    let ghost view = row@;
    let ghost m = decimals(reals@);
    let mut conditions: Vec<String> = Vec::new();
    let mut i: usize = 0;
    while i < row.pk_columns.len()
        invariant
            i <= row.pk_columns@.len(),
            conditions@.len() == i,
            view == row@,
            m == decimals(reals@),
            all_renderable(view.values, m),
            all_renderable(view.pk_values, m),
            forall|k: int|
                0 <= k < view.pk_columns.len() ==> has_key_value(
                    view,
                    #[trigger] view.pk_columns[k],
                ),
            forall|k: int|
                0 <= k < i ==> (#[trigger] conditions@[k])@ == equation(
                    view.pk_columns[k],
                    key_value(view, view.pk_columns[k]),
                    m,
                ),
        decreases row.pk_columns@.len() - i,
    {
        let pk = row.pk_columns[i].as_str();
        let mut condition = String::new();
        assert(view.pk_columns[i as int] == pk@);
        assert(has_key_value(view, view.pk_columns[i as int]));
        if row.pk_values.len() > 0 {
            if let Some(at) = find(&row.pk_columns, pk) {
                assert(renderable(view.pk_values[at as int], m));
                push_equation(&mut condition, pk, &row.pk_values[at], reals);
            } else {
                assert(position(view.pk_columns, pk@) <= i) by {
                    position_found(view.pk_columns, i as int);
                }
            }
        } else if let Some(at) = find(&row.columns, pk) {
            assert(renderable(view.values[at as int], m));
            push_equation(&mut condition, pk, &row.values[at], reals);
        }
        assert(condition@ =~= equation(pk@, key_value(view, pk@), m));
        conditions.push(condition);
        i = i + 1;
    }
    assert(views(conditions@) =~= view.pk_columns.map_values(
        |c: Seq<char>| equation(c, key_value(view, c), m),
    ));
    join(&conditions, " AND ")
}

proof fn position_found(items: Seq<Seq<char>>, i: int)
    requires
        0 <= i < items.len(),
    ensures
        position(items, items[i]) <= i,
    decreases i,
{
    if i > 0 && items[0] != items[i] {
        position_found(items.skip(1), i - 1);
    }
}

fn row_assignments(row: &RowEvent, reals: &HashMap<u64, String>) -> (r: Vec<String>)
    requires
        all_renderable(row@.values, decimals(reals@)),
    ensures
        views(r@) == assignments(row@, decimals(reals@)),
{
    let ghost view = row@;
    let ghost m = decimals(reals@);
    let mut sets: Vec<String> = Vec::new();
    let mut i: usize = 0;
    while i < row.columns.len() && i < row.values.len()
        invariant
            i <= row.columns@.len(),
            i <= row.values@.len(),
            sets@.len() == i,
            view == row@,
            m == decimals(reals@),
            all_renderable(view.values, m),
            forall|k: int|
                0 <= k < i ==> (#[trigger] sets@[k])@ == equation(
                    view.columns[k],
                    view.values[k],
                    m,
                ),
        decreases row.columns@.len() - i,
    {
        assert(renderable(view.values[i as int], m));
        let mut set = String::new();
        push_equation(&mut set, row.columns[i].as_str(), &row.values[i], reals);
        assert(set@ =~= equation(view.columns[i as int], view.values[i as int], m));
        sets.push(set);
        i = i + 1;
    }
    assert(views(sets@) =~= assignments(view, m));
    sets
}

/// Renders a row change. An INSERT is an upsert on the primary key, so that
/// re-applying a stream suffix is idempotent.
pub fn row_sql(row: &RowEvent, reals: &HashMap<u64, String>) -> (r: String)
    requires
        row_renderable(row@, decimals(reals@)),
    ensures
        r@ == row_statement(row@, decimals(reals@)),
{
    let table = quote_ident(row.table.as_str());
    let mut r: String;
    if row.op == 0 {
        r = "INSERT INTO ".to_owned();
        r.append(table.as_str());
        r.append(" (");
        r.append(join(&quote_idents(&row.columns), ", ").as_str());
        r.append(") VALUES (");
        r.append(join(&sql_literals(&row.values, reals), ", ").as_str());
        r.append(") ON CONFLICT(");
        r.append(join(&quote_idents(&row.pk_columns), ", ").as_str());
        r.append(") ");
        r.append(conflict_clause(&row.columns, &row.pk_columns).as_str());
    } else if row.op == 1 {
        r = "UPDATE ".to_owned();
        r.append(table.as_str());
        r.append(" SET ");
        r.append(join(&row_assignments(row, reals), ", ").as_str());
        r.append(" WHERE ");
        r.append(row_where(row, reals).as_str());
    } else {
        r = "DELETE FROM ".to_owned();
        r.append(table.as_str());
        r.append(" WHERE ");
        r.append(row_where(row, reals).as_str());
    }
    r.append(";");
    r
}

// ---------------------------------------------------------------------------
// Transactions
// ---------------------------------------------------------------------------

/// A schema statement without trailing white space, with a semicolon at its
/// end.
pub open spec fn finished(stmt: Seq<char>) -> Seq<char> {
    let text = trim_end(stmt);
    if text.len() > 0 && text.last() == ';' {
        text
    } else {
        text.push(';')
    }
}

/// The statements of all schema changes, in order.
pub open spec fn ddl_statements(ddl: Seq<Seq<Seq<char>>>) -> Seq<Seq<char>>
    decreases ddl.len(),
{
    if ddl.len() == 0 {
        seq![]
    } else {
        ddl_statements(ddl.drop_last()) + ddl.last().map_values(|s: Seq<char>| finished(s))
    }
}

/// A transaction as statements: schema changes first, then a statement per
/// changed row.
pub open spec fn statements(tx: Tx, reals: Map<u64, Seq<char>>) -> Seq<Seq<char>> {
    ddl_statements(tx.ddl) + tx.rows.map_values(|r: Row| row_statement(r, reals))
}

/// Whether all of a transaction's row changes can be rendered.
pub open spec fn tx_renderable(tx: Tx, reals: Map<u64, Seq<char>>) -> bool {
    forall|i: int| 0 <= i < tx.rows.len() ==> row_renderable(#[trigger] tx.rows[i], reals)
}

fn finish(stmt: &str) -> (r: String)
    ensures
        r@ == finished(stmt@),
{
    let chars = chars_of(stmt);
    let end: usize = crate::sql::skip_space_back(chars.as_slice(), chars.len());
    assert(chars@.take(chars@.len() as int) =~= chars@);
    let mut r = text_of(vstd::slice::slice_subrange(chars.as_slice(), 0, end));
    assert(r@ =~= chars@.take(end as int));
    if !(end > 0 && chars[end - 1] == ';') {
        r.push(';');
    }
    r
}

/// Renders one committed transaction as a ready-to-apply statement list: DDL
/// replayed verbatim, row changes as statements with literal values. The
/// caller applies the list atomically; no BEGIN/COMMIT are included.
pub fn tx_statements(tx: &Transaction, reals: &HashMap<u64, String>) -> (r: Vec<String>)
    requires
        tx_renderable(tx@, decimals(reals@)),
    ensures
        views(r@) == statements(tx@, decimals(reals@)),
{
    let ghost view = tx@;
    let ghost m = decimals(reals@);
    let mut out: Vec<String> = Vec::new();
    let mut i: usize = 0;
    assert(view.ddl.take(0) =~= seq![]);
    assert(views(out@) =~= ddl_statements(view.ddl.take(0)));
    while i < tx.ddl.len()
        invariant
            i <= tx.ddl@.len(),
            view == tx@,
            views(out@) == ddl_statements(view.ddl.take(i as int)),
        decreases tx.ddl@.len() - i,
    {
        let ghost before = views(out@);
        let ghost stmts = views(tx.ddl@[i as int].statements@);
        let ghost done = stmts.map_values(|s: Seq<char>| finished(s));
        let mut j: usize = 0;
        assert(views(out@) =~= before + done.take(0));
        while j < tx.ddl[i].statements.len()
            invariant
                i < tx.ddl@.len(),
                j <= tx.ddl@[i as int].statements@.len(),
                stmts == views(tx.ddl@[i as int].statements@),
                done == stmts.map_values(|s: Seq<char>| finished(s)),
                views(out@) == before + done.take(j as int),
            decreases tx.ddl@[i as int].statements@.len() - j,
        {
            out.push(finish(tx.ddl[i].statements[j].as_str()));
            assert(done.take(j + 1) =~= done.take(j as int).push(done[j as int]));
            assert(views(out@) =~= before + done.take(j + 1));
            j = j + 1;
        }
        proof {
            assert(done.take(j as int) =~= done);
            assert(view.ddl.take(i + 1).drop_last() =~= view.ddl.take(i as int));
            assert(view.ddl.take(i + 1).last() == stmts);
        }
        i = i + 1;
    }
    assert(view.ddl.take(i as int) =~= view.ddl);
    let ghost head = views(out@);
    let ghost done = view.rows.map_values(|r: Row| row_statement(r, m));
    let mut k: usize = 0;
    assert(views(out@) =~= head + done.take(0));
    while k < tx.rows.len()
        invariant
            k <= tx.rows@.len(),
            view == tx@,
            m == decimals(reals@),
            tx_renderable(view, m),
            done == view.rows.map_values(|r: Row| row_statement(r, m)),
            views(out@) == head + done.take(k as int),
        decreases tx.rows@.len() - k,
    {
        assert(row_renderable(view.rows[k as int], m));
        out.push(row_sql(&tx.rows[k], reals));
        assert(done.take(k + 1) =~= done.take(k as int).push(done[k as int]));
        assert(views(out@) =~= head + done.take(k + 1));
        k = k + 1;
    }
    assert(done.take(k as int) =~= done);
    out
}

/// Every statement of a transaction ends with a semicolon.
pub proof fn statements_are_closed(tx: Tx, reals: Map<u64, Seq<char>>, i: int)
    requires
        0 <= i < statements(tx, reals).len(),
    ensures
        statements(tx, reals)[i].len() > 0,
        statements(tx, reals)[i].last() == ';',
{
    let ddl = ddl_statements(tx.ddl);
    if i < ddl.len() {
        ddl_closed(tx.ddl, i);
    } else {
        reveal_strlit(";");
        assert(statements(tx, reals)[i] == row_statement(tx.rows[i - ddl.len()], reals));
    }
}

proof fn ddl_closed(ddl: Seq<Seq<Seq<char>>>, i: int)
    requires
        0 <= i < ddl_statements(ddl).len(),
    ensures
        ddl_statements(ddl)[i].len() > 0,
        ddl_statements(ddl)[i].last() == ';',
    decreases ddl.len(),
{
    let before = ddl_statements(ddl.drop_last());
    if i < before.len() {
        ddl_closed(ddl.drop_last(), i);
    } else {
        assert(ddl_statements(ddl)[i] == finished(ddl.last()[i - before.len()]));
    }
}

/// Row changes come behind all schema changes, each at its own place.
pub proof fn rows_follow_ddl(tx: Tx, reals: Map<u64, Seq<char>>, i: int)
    requires
        0 <= i < tx.rows.len(),
    ensures
        statements(tx, reals).len() == ddl_statements(tx.ddl).len() + tx.rows.len(),
        statements(tx, reals)[ddl_statements(tx.ddl).len() + i] == row_statement(
            tx.rows[i],
            reals,
        ),
{
}

// ---------------------------------------------------------------------------
// Doubles
// ---------------------------------------------------------------------------

/// The doubles among values, in order.
pub open spec fn value_reals(values: Seq<Option<Scalar>>) -> Seq<u64>
    decreases values.len(),
{
    if values.len() == 0 {
        seq![]
    } else {
        let before = value_reals(values.drop_last());
        match values.last() {
            Some(Scalar::Float(bits)) => before.push(bits),
            _ => before,
        }
    }
}

/// The doubles in row changes, in order.
pub open spec fn row_reals(rows: Seq<Row>) -> Seq<u64>
    decreases rows.len(),
{
    if rows.len() == 0 {
        seq![]
    } else {
        row_reals(rows.drop_last()) + value_reals(rows.last().pk_values) + value_reals(
            rows.last().values,
        )
    }
}

fn push_reals(out: &mut Vec<u64>, values: &Vec<Value>)
    ensures
        final(out)@ == old(out)@ + value_reals(views(values@)),
{
    let ghost all = views(values@);
    let mut i: usize = 0;
    assert(all.take(0) =~= seq![]);
    assert(out@ =~= old(out)@ + value_reals(all.take(0)));
    while i < values.len()
        invariant
            i <= values@.len(),
            all == views(values@),
            out@ == old(out)@ + value_reals(all.take(i as int)),
        decreases values@.len() - i,
    {
        assert(all.take(i + 1).drop_last() =~= all.take(i as int));
        assert(all.take(i + 1).last() == values@[i as int]@);
        if let Some(crate::binlog::value::Value::Float(bits)) = &values[i].value {
            out.push(*bits);
        }
        assert(out@ =~= old(out)@ + value_reals(all.take(i + 1)));
        i = i + 1;
    }
    assert(all.take(i as int) =~= all);
}

/// The doubles whose decimal forms rendering a transaction takes.
pub fn real_bits(tx: &Transaction) -> (r: Vec<u64>)
    ensures
        r@ == row_reals(tx@.rows),
{
    let ghost all = tx@.rows;
    let mut out: Vec<u64> = Vec::new();
    let mut i: usize = 0;
    assert(all.take(0) =~= seq![]);
    while i < tx.rows.len()
        invariant
            i <= tx.rows@.len(),
            all == tx@.rows,
            out@ == row_reals(all.take(i as int)),
        decreases tx.rows@.len() - i,
    {
        push_reals(&mut out, &tx.rows[i].pk_values);
        push_reals(&mut out, &tx.rows[i].values);
        assert(all.take(i + 1).drop_last() =~= all.take(i as int));
        assert(all.take(i + 1).last() == tx.rows@[i as int]@);
        i = i + 1;
    }
    assert(all.take(i as int) =~= all);
    out
}

/// Whether every double among values has its decimal form.
pub fn has_reals(values: &Vec<Value>, reals: &HashMap<u64, String>) -> (r: bool)
    ensures
        r == all_renderable(views(values@), decimals(reals@)),
{
    let ghost all = views(values@);
    let ghost m = decimals(reals@);
    let mut i: usize = 0;
    while i < values.len()
        invariant
            i <= values@.len(),
            all == views(values@),
            m == decimals(reals@),
            forall|k: int| 0 <= k < i ==> renderable(#[trigger] all[k], m),
        decreases values@.len() - i,
    {
        if let Some(crate::binlog::value::Value::Float(bits)) = &values[i].value {
            assert(m.contains_key(*bits) == reals@.contains_key(*bits));
            if !reals.contains_key(bits) {
                assert(!renderable(all[i as int], m));
                return false;
            }
        }
        assert(all[i as int] == values@[i as int]@);
        i = i + 1;
    }
    true
}

/// Whether an event can be rendered.
pub fn can_render(row: &RowEvent, reals: &HashMap<u64, String>) -> (r: bool)
    ensures
        r == row_renderable(row@, decimals(reals@)),
{
    let ghost view = row@;
    if Op::from_i32(row.op).is_none() {
        return false;
    }
    if !has_reals(&row.values, reals) || !has_reals(&row.pk_values, reals) {
        return false;
    }
    if row.op == 0 {
        return true;
    }
    let mut i: usize = 0;
    while i < row.pk_columns.len()
        invariant
            i <= row.pk_columns@.len(),
            view == row@,
            row.op != 0,
            forall|k: int|
                0 <= k < i ==> has_key_value(view, #[trigger] view.pk_columns[k]),
        decreases row.pk_columns@.len() - i,
    {
        let pk = row.pk_columns[i].as_str();
        assert(view.pk_columns[i as int] == pk@);
        let found: bool = if row.pk_values.len() > 0 {
            match find(&row.pk_columns, pk) {
                Some(at) => at < row.pk_values.len(),
                None => {
                    proof {
                        position_found(view.pk_columns, i as int);
                    }
                    false
                },
            }
        } else {
            match find(&row.columns, pk) {
                Some(at) => at < row.values.len(),
                None => false,
            }
        };
        if !found {
            assert(!has_key_value(view, view.pk_columns[i as int]));
            return false;
        }
        i = i + 1;
    }
    true
}

/// Whether all row changes of a transaction can be rendered.
pub fn can_render_all(tx: &Transaction, reals: &HashMap<u64, String>) -> (r: bool)
    ensures
        r == tx_renderable(tx@, decimals(reals@)),
{
    let mut i: usize = 0;
    while i < tx.rows.len()
        invariant
            i <= tx.rows@.len(),
            forall|k: int|
                0 <= k < i ==> row_renderable(#[trigger] tx@.rows[k], decimals(reals@)),
        decreases tx.rows@.len() - i,
    {
        assert(tx@.rows[i as int] == tx.rows@[i as int]@);
        if !can_render(&tx.rows[i], reals) {
            return false;
        }
        i = i + 1;
    }
    true
}

// ---------------------------------------------------------------------------
// Answers
// ---------------------------------------------------------------------------

/// What a replica asks of the change stream.
#[derive(Clone, Copy, Debug, PartialEq, Eq, Structural)]
pub struct BinlogQuery {
    /// Fetch transactions with lsn > since.
    pub since: u64,
}

/// LSN watermarks of a namespace.
#[derive(Clone, Copy, Debug, PartialEq, Eq, Structural)]
pub struct InfoResponse {
    /// LSN of the last committed transaction in the binlog.
    pub current_lsn: u64,
    /// LSN of the first retained transaction. Clients with a local LSN below
    /// this must re-clone.
    pub min_lsn: u64,
    /// PRAGMA schema_version of the primary database.
    pub schema_version: i64,
}

/// One committed transaction as served on the wire: a ready-to-apply
/// statement list, keyed by its LSN.
#[derive(Debug, PartialEq, Eq)]
pub struct TxPayload {
    pub lsn: u64,
    pub statements: Vec<String>,
}

/// One event of the change stream.
#[derive(Debug, PartialEq, Eq)]
pub enum SyncEvent {
    /// A transaction; its LSN is the event's id.
    Tx(TxPayload),
    /// The stream failed, and ends.
    Error { code: String, message: String },
}

/// One event of the change stream, mathematically.
#[verifier::ext_equal]
pub enum Told {
    Tx { lsn: u64, statements: Seq<Seq<char>> },
    Failed { code: Seq<char>, message: Seq<char> },
}

impl View for SyncEvent {
    type V = Told;

    open spec fn view(&self) -> Told {
        match self {
            SyncEvent::Tx(p) => Told::Tx { lsn: p.lsn, statements: views(p.statements@) },
            SyncEvent::Error { code, message } => Told::Failed { code: code@, message: message@ },
        }
    }
}

/// The event of a record that was read.
pub open spec fn told(tx: Tx, reals: Map<u64, Seq<char>>) -> Told {
    if tx_renderable(tx, reals) {
        Told::Tx { lsn: tx.lsn, statements: statements(tx, reals) }
    } else {
        Told::Failed {
            code: "BINLOG_MALFORMED"@,
            message: "a row event of the record cannot be rendered"@,
        }
    }
}

/// The watermarks of a log.
pub open spec fn watermarks(log: Log, schema_version: i64) -> InfoResponse {
    InfoResponse { current_lsn: log.current_lsn, min_lsn: log.min_lsn, schema_version }
}

/// Answers a request for the watermarks.
pub fn info(binlog: &Binlog, schema_version: i64) -> (r: InfoResponse)
    ensures
        r == watermarks(binlog@, schema_version),
{
    InfoResponse {
        current_lsn: binlog.current_lsn(),
        min_lsn: binlog.min_lsn(),
        schema_version,
    }
}

/// What a replica is told that has fallen behind the retained records.
pub open spec fn lag_message(since: u64, min_lsn: u64) -> Seq<char> {
    "requested LSN "@ + decimal(since as nat)
        + " is older than the oldest retained binlog record ("@ + decimal(min_lsn as nat)
        + "); the client must re-clone the database"@
}

/// What comes of a request for the changes above `since`: a reader, or why it is
/// refused.
pub open spec fn opened(log: Log, since: u64) -> Result<Reader, Refusal> {
    if since < log.min_lsn {
        Err(
            Refusal {
                status: 409,
                code: "BINLOG_LAG"@,
                message: lag_message(since, log.min_lsn),
            },
        )
    } else {
        Ok(Reader { left: log.segments.len(), rest: seq![], since, failed: false })
    }
}

/// Opens the change stream above `query.since`. A replica below the retained
/// records is refused: it must clone the database anew.
pub fn open_stream(binlog: &Binlog, query: BinlogQuery) -> (r: Result<BinlogIter, AppError>)
    ensures
        match opened(binlog@, query.since) {
            Ok(reader) => r matches Ok(iter) && iter.wf() && iter@ == reader,
            Err(f) => r matches Err(e) && e@ == f,
        },
{
    if query.since < binlog.min_lsn() {
        let mut message = "requested LSN ".to_owned();
        push_decimal(&mut message, query.since);
        message.append(" is older than the oldest retained binlog record (");
        push_decimal(&mut message, binlog.min_lsn());
        message.append("); the client must re-clone the database");
        return Err(AppError::conflict("BINLOG_LAG", message.as_str()));
    }
    Ok(binlog.iter_since(query.since))
}

/// The event of a transaction.
pub fn tx_event(tx: &Transaction, reals: &HashMap<u64, String>) -> (r: SyncEvent)
    requires
        tx_renderable(tx@, decimals(reals@)),
    ensures
        r@ == told(tx@, decimals(reals@)),
        r matches SyncEvent::Tx(p) && p.lsn == tx@.lsn && views(p.statements@) == statements(
            tx@,
            decimals(reals@),
        ),
{
    SyncEvent::Tx(TxPayload { lsn: tx.lsn, statements: tx_statements(tx, reals) })
}

/// The event of a record that was read: its transaction where the row changes
/// can be rendered, else a failure.
pub fn record_event(tx: &Transaction, reals: &HashMap<u64, String>) -> (r: SyncEvent)
    ensures
        r@ == told(tx@, decimals(reals@)),
        tx_renderable(tx@, decimals(reals@)) ==> (r matches SyncEvent::Tx(p) && p.lsn == tx@.lsn
            && views(p.statements@) == statements(tx@, decimals(reals@))),
        !tx_renderable(tx@, decimals(reals@)) ==> (r matches SyncEvent::Error { code, message }
            && code@ == "BINLOG_MALFORMED"@ && message@
            == "a row event of the record cannot be rendered"@),
{
    if can_render_all(tx, reals) {
        tx_event(tx, reals)
    } else {
        SyncEvent::Error {
            code: "BINLOG_MALFORMED".to_owned(),
            message: "a row event of the record cannot be rendered".to_owned(),
        }
    }
}

/// The event of a failed read, so that a client can tell failure from a clean
/// end. Of a corrupt record it tells `cause`, what the decoder said of it.
pub fn error_event(e: &BinlogError, cause: &str) -> (r: SyncEvent)
    ensures
        r matches SyncEvent::Error { code, message } && code@ == "BINLOG_READ"@ && message@
            == e.text(cause@),
{
    SyncEvent::Error { code: "BINLOG_READ".to_owned(), message: e.message(cause) }
}

} // verus!
