//! Binlog in human-readable form.

use crate::binlog::codec::parse_tx;
use crate::binlog::segment::{parse_frame, read_frame, BinlogError, Frame, Framed};
use crate::binlog::value::Scalar;
use crate::binlog::{value, Op, Row, RowEvent, Transaction, Tx, Value};
use crate::calendar::{civil_from_days, day_number, day_number_is_unique, floor_div, is_date};
use crate::model::{group_views, views};
use crate::sql::{decimals, hex, joined, push_hex, renderable};
use crate::sync::{all_renderable, find, has_reals, join, position};
use crate::text::{
    chars_of, decimal, digit, digit_char, magnitude, padded, push_decimal, push_padded, push_signed,
    signed_decimal,
};
use std::collections::HashMap;
use vstd::prelude::*;

verus! {

broadcast use {group_views, vstd::std_specs::hash::group_hash_axioms};

// ---------------------------------------------------------------------------
// Times
// ---------------------------------------------------------------------------

/// A signed number in decimal digits, with zeros between its sign and its
/// digits up to `width` characters in all.
pub open spec fn padded_signed(v: int, width: nat) -> Seq<char> {
    if v < 0 {
        seq!['-'] + padded(
            (-v) as nat,
            if width > 0 {
                (width - 1) as nat
            } else {
                0
            },
        )
    } else {
        padded(v as nat, width)
    }
}

fn push_padded_signed(out: &mut String, v: i64, width: usize)
    ensures
        final(out)@ == old(out)@ + padded_signed(v as int, width as nat),
{
    if v < 0 {
        out.push('-');
        let left: usize = if width > 0 {
            width - 1
        } else {
            0
        };
        push_padded(out, magnitude(v), left);
        assert(out@ =~= old(out)@ + padded_signed(v as int, width as nat));
    } else {
        push_padded(out, magnitude(v), width);
    }
}

/// A date and a time of day as text.
pub open spec fn timestamp(y: int, m: int, d: int, seconds: int, millis: int) -> Seq<char> {
    padded_signed(y, 4) + "-"@ + padded(m as nat, 2) + "-"@ + padded(d as nat, 2) + "T"@ + padded(
        (seconds / 3600) as nat,
        2,
    ) + ":"@ + padded(((seconds % 3600) / 60) as nat, 2) + ":"@ + padded((seconds % 60) as nat, 2)
        + "."@ + padded(millis as nat, 3) + "Z"@
}

/// Whether `text` is the time `ms` milliseconds after 1970-01-01T00:00:00Z.
pub open spec fn is_utc(text: Seq<char>, ms: int) -> bool {
    exists|y: int, m: int, d: int|
        is_date(y, m, d) && #[trigger] day_number(y, m, d) == ms / 86400000 && text == timestamp(
            y,
            m,
            d,
            (ms % 86400000) / 1000,
            ms % 1000,
        )
}

/// The time `ms` milliseconds after 1970-01-01T00:00:00Z as text.
pub open spec fn utc_text(ms: int) -> Seq<char> {
    choose|text: Seq<char>| is_utc(text, ms)
}

/// A time has one text.
pub proof fn utc_text_is_unique(a: Seq<char>, b: Seq<char>, ms: int)
    requires
        is_utc(a, ms),
        is_utc(b, ms),
    ensures
        a == b,
{
    let (y1, m1, d1) = choose|y: int, m: int, d: int|
        is_date(y, m, d) && #[trigger] day_number(y, m, d) == ms / 86400000 && a == timestamp(
            y,
            m,
            d,
            (ms % 86400000) / 1000,
            ms % 1000,
        );
    let (y2, m2, d2) = choose|y: int, m: int, d: int|
        is_date(y, m, d) && #[trigger] day_number(y, m, d) == ms / 86400000 && b == timestamp(
            y,
            m,
            d,
            (ms % 86400000) / 1000,
            ms % 1000,
        );
    day_number_is_unique(y1, m1, d1, y2, m2, d2);
}

/// Milliseconds since 1970-01-01T00:00:00Z as text.
pub fn fmt_utc(ms: i64) -> (r: String)
    ensures
        is_utc(r@, ms as int),
        r@ == utc_text(ms as int),
{
    let (secs, millis) = floor_div(ms, 1000);
    let (days, rem) = floor_div(secs, 86400);
    assert(days == ms as int / 86400000);
    assert(rem == (ms as int % 86400000) / 1000);
    let (y, m, d) = civil_from_days(days);
    let mut r = String::new();
    push_padded_signed(&mut r, y, 4);
    r.append("-");
    push_padded(&mut r, m as u64, 2);
    r.append("-");
    push_padded(&mut r, d as u64, 2);
    r.append("T");
    push_padded(&mut r, (rem / 3600) as u64, 2);
    r.append(":");
    push_padded(&mut r, ((rem % 3600) / 60) as u64, 2);
    r.append(":");
    push_padded(&mut r, (rem % 60) as u64, 2);
    r.append(".");
    push_padded(&mut r, millis as u64, 3);
    r.append("Z");
    assert(r@ =~= timestamp(
        y as int,
        m as int,
        d as int,
        (ms as int % 86400000) / 1000,
        ms as int % 1000,
    ));
    assert(day_number(y as int, m as int, d as int) == ms as int / 86400000);
    proof {
        assert(is_utc(r@, ms as int));
        utc_text_is_unique(r@, utc_text(ms as int), ms as int);
    }
    r
}

// ---------------------------------------------------------------------------
// Values
// ---------------------------------------------------------------------------

/// A control character.
pub open spec fn is_control(c: char) -> bool {
    (c as u32) < 0x20 || 0x7f <= (c as u32) <= 0x9f
}

/// A character of a text that is shown between double quotes.
pub open spec fn escaped_char(c: char) -> Seq<char> {
    if c == '"' {
        seq!['\\', '"']
    } else if c == '\\' {
        seq!['\\', '\\']
    } else if c == '\n' {
        seq!['\\', 'n']
    } else if c == '\r' {
        seq!['\\', 'r']
    } else if c == '\t' {
        seq!['\\', 't']
    } else if is_control(c) {
        seq!['\\', 'x', digit((c as u32 / 16) as int), digit((c as u32 % 16) as int)]
    } else {
        seq![c]
    }
}

pub open spec fn escaped(s: Seq<char>) -> Seq<char>
    decreases s.len(),
{
    if s.len() == 0 {
        seq![]
    } else {
        escaped(s.drop_last()) + escaped_char(s.last())
    }
}

/// Escapes what a text between double quotes cannot show.
pub fn escape(s: &str) -> (r: String)
    ensures
        r@ == escaped(s@),
{
    let chars = chars_of(s);
    let mut out = String::new();
    let mut i: usize = 0;
    assert(chars@.take(0) =~= seq![]);
    assert(out@ =~= escaped(chars@.take(0)));
    while i < chars.len()
        invariant
            i <= chars@.len(),
            out@ == escaped(chars@.take(i as int)),
        decreases chars@.len() - i,
    {
        let c: char = chars[i];
        let ghost before = out@;
        let v: u32 = c as u32;
        if c == '"' {
            out.push('\\');
            out.push('"');
        } else if c == '\\' {
            out.push('\\');
            out.push('\\');
        } else if c == '\n' {
            out.push('\\');
            out.push('n');
        } else if c == '\r' {
            out.push('\\');
            out.push('r');
        } else if c == '\t' {
            out.push('\\');
            out.push('t');
        } else if v < 0x20 || (0x7f <= v && v <= 0x9f) {
            out.push('\\');
            out.push('x');
            out.push(digit_char((v / 16) as u8));
            out.push(digit_char((v % 16) as u8));
        } else {
            out.push(c);
        }
        assert(out@ =~= before + escaped_char(c));
        assert(chars@.take(i + 1).drop_last() =~= chars@.take(i as int));
        i = i + 1;
    }
    assert(chars@.take(i as int) =~= chars@);
    out
}

/// Bytes as they are shown; of many, only the start.
pub open spec fn shown_bytes(b: Seq<u8>) -> Seq<char> {
    if b.len() > 32 {
        seq!['X', '\''] + hex(b.take(32)) + seq!['\u{2026}', '\'']
    } else {
        seq!['X', '\''] + hex(b) + seq!['\'']
    }
}

fn push_bytes(out: &mut String, b: &[u8])
    ensures
        final(out)@ == old(out)@ + shown_bytes(b@),
{
    out.push('X');
    out.push('\'');
    if b.len() > 32 {
        let head = vstd::slice::slice_subrange(b, 0, 32);
        assert(head@ =~= b@.take(32));
        push_hex(out, head);
        out.push('\u{2026}');
    } else {
        push_hex(out, b);
    }
    out.push('\'');
    assert(out@ =~= old(out)@ + shown_bytes(b@));
}

/// A value as it is shown.
pub open spec fn shown_value(v: Option<Scalar>, reals: Map<u64, Seq<char>>) -> Seq<char> {
    match v {
        None => "NULL"@,
        Some(Scalar::Null) => "NULL"@,
        Some(Scalar::Integer(i)) => signed_decimal(i as int),
        Some(Scalar::Float(bits)) => reals[bits],
        Some(Scalar::Text(s)) => seq!['"'] + escaped(s) + seq!['"'],
        Some(Scalar::Blob(b)) => shown_bytes(b),
        Some(Scalar::RawText(b)) => "CAST("@ + shown_bytes(b) + " AS TEXT)"@,
    }
}

/// A value as it is shown.
pub fn fmt_value(v: &Value, reals: &HashMap<u64, String>) -> (r: String)
    requires
        renderable(v@, decimals(reals@)),
    ensures
        r@ == shown_value(v@, decimals(reals@)),
{
    let mut r = String::new();
    match &v.value {
        None => {
            r.append("NULL");
        },
        Some(value::Value::Null(_)) => {
            r.append("NULL");
        },
        Some(value::Value::Integer(i)) => {
            push_signed(&mut r, *i);
        },
        Some(value::Value::Float(bits)) => {
            assert(reals@.contains_key(*bits));
            if let Some(text) = reals.get(bits) {
                r.append(text.as_str());
            }
        },
        Some(value::Value::Text(s)) => {
            r.push('"');
            r.append(escape(s.as_str()).as_str());
            r.push('"');
        },
        Some(value::Value::Blob(b)) => {
            push_bytes(&mut r, b.as_slice());
        },
        Some(value::Value::RawText(b)) => {
            r.append("CAST(");
            push_bytes(&mut r, b.as_slice());
            r.append(" AS TEXT)");
        },
    }
    assert(r@ =~= shown_value(v@, decimals(reals@)));
    r
}

// ---------------------------------------------------------------------------
// Transactions
// ---------------------------------------------------------------------------

pub open spec fn shown_op(op: i32) -> Op {
    if op == 1 {
        Op::Update
    } else if op == 2 {
        Op::Delete
    } else {
        Op::Insert
    }
}

pub open spec fn label(op: Op) -> Seq<char> {
    match op {
        Op::Insert => "INSERT"@,
        Op::Update => "UPDATE"@,
        Op::Delete => "DELETE"@,
    }
}

pub fn op_label(op: Op) -> (r: &'static str)
    ensures
        r@ == label(op),
{
    match op {
        Op::Insert => "INSERT",
        Op::Update => "UPDATE",
        Op::Delete => "DELETE",
    }
}

/// The values of a key among an after-image; columns that are not there are
/// left out.
pub open spec fn image_key(
    pk: Seq<Seq<char>>,
    r: Row,
    reals: Map<u64, Seq<char>>,
) -> Seq<Seq<char>>
    decreases pk.len(),
{
    if pk.len() == 0 {
        seq![]
    } else {
        let before = image_key(pk.drop_last(), r, reals);
        let at = position(r.columns, pk.last());
        if at < r.columns.len() {
            before.push(shown_value(r.values[at as int], reals))
        } else {
            before
        }
    }
}

/// The values of a row's key as they are shown.
pub open spec fn shown_key(r: Row, reals: Map<u64, Seq<char>>) -> Seq<Seq<char>> {
    if r.pk_values.len() > 0 {
        r.pk_values.map_values(|v: Option<Scalar>| shown_value(v, reals))
    } else if shown_op(r.op) != Op::Delete {
        image_key(r.pk_columns, r, reals)
    } else {
        seq![]
    }
}

/// The columns of an after-image with their values.
pub open spec fn shown_columns(r: Row, reals: Map<u64, Seq<char>>) -> Seq<Seq<char>> {
    let n = if r.columns.len() < r.values.len() {
        r.columns.len()
    } else {
        r.values.len()
    };
    Seq::new(n, |i: int| r.columns[i] + "="@ + shown_value(r.values[i], reals))
}

/// The line of a changed row.
pub open spec fn row_line(r: Row, reals: Map<u64, Seq<char>>) -> Seq<char> {
    let op = shown_op(r.op);
    let key = shown_key(r, reals);
    "  "@ + label(op) + " table=\""@ + r.table + "\" "@ + (if key.len() == 0 {
        seq![]
    } else {
        "pk=["@ + joined(key, ", "@) + "] "@
    }) + (if op == Op::Delete {
        seq![]
    } else {
        joined(shown_columns(r, reals), ", "@)
    })
}

pub open spec fn ddl_line(stmt: Seq<char>) -> Seq<char> {
    "  DDL    "@ + stmt
}

pub open spec fn ddl_lines(ddl: Seq<Seq<Seq<char>>>) -> Seq<Seq<char>>
    decreases ddl.len(),
{
    if ddl.len() == 0 {
        seq![]
    } else {
        ddl_lines(ddl.drop_last()) + ddl.last().map_values(|s: Seq<char>| ddl_line(s))
    }
}

pub open spec fn head_line(tx: Tx) -> Seq<char> {
    "txn lsn="@ + decimal(tx.lsn as nat) + " commit="@ + utc_text(tx.commit_ts_ms as int)
        + " rows="@ + decimal(tx.rows.len()) + " ddl="@ + decimal(tx.ddl.len())
}

/// A transaction as lines: a head, its changed rows, its schema changes.
pub open spec fn tx_lines(tx: Tx, reals: Map<u64, Seq<char>>) -> Seq<Seq<char>> {
    seq![head_line(tx)] + tx.rows.map_values(|r: Row| row_line(r, reals)) + ddl_lines(tx.ddl)
}

/// Whether a changed row can be shown: the doubles have their decimal forms,
/// and the values of a key among the after-image are there.
pub open spec fn row_printable(r: Row, reals: Map<u64, Seq<char>>) -> bool {
    &&& all_renderable(r.values, reals)
    &&& all_renderable(r.pk_values, reals)
    &&& r.pk_values.len() == 0 && shown_op(r.op) != Op::Delete ==> forall|i: int|
        0 <= i < r.pk_columns.len() ==> position(r.columns, #[trigger] r.pk_columns[i])
            < r.columns.len() ==> position(r.columns, r.pk_columns[i]) < r.values.len()
}

pub open spec fn tx_printable(tx: Tx, reals: Map<u64, Seq<char>>) -> bool {
    forall|i: int| 0 <= i < tx.rows.len() ==> row_printable(#[trigger] tx.rows[i], reals)
}

fn fmt_values(values: &Vec<Value>, reals: &HashMap<u64, String>) -> (r: Vec<String>)
    requires
        all_renderable(views(values@), decimals(reals@)),
    ensures
        views(r@) == views(values@).map_values(
            |v: Option<Scalar>| shown_value(v, decimals(reals@)),
        ),
{
    let mut r: Vec<String> = Vec::new();
    let mut i: usize = 0;
    while i < values.len()
        invariant
            i <= values@.len(),
            r@.len() == i,
            all_renderable(views(values@), decimals(reals@)),
            forall|k: int|
                0 <= k < i ==> (#[trigger] r@[k])@ == shown_value(values@[k]@, decimals(reals@)),
        decreases values@.len() - i,
    {
        assert(renderable(views(values@)[i as int], decimals(reals@)));
        r.push(fmt_value(&values[i], reals));
        i = i + 1;
    }
    assert(views(r@) =~= views(values@).map_values(
        |v: Option<Scalar>| shown_value(v, decimals(reals@)),
    ));
    r
}

fn fmt_key(row: &RowEvent, reals: &HashMap<u64, String>) -> (r: Vec<String>)
    requires
        row_printable(row@, decimals(reals@)),
    ensures
        views(r@) == shown_key(row@, decimals(reals@)),
{
    let ghost view = row@;
    let ghost m = decimals(reals@);
    if row.pk_values.len() > 0 {
        return fmt_values(&row.pk_values, reals);
    }
    let mut r: Vec<String> = Vec::new();
    assert(views(r@) =~= seq![]);
    if row.op == 2 {
        return r;
    }
    let ghost pk = view.pk_columns;
    let mut i: usize = 0;
    assert(pk.take(0) =~= seq![]);
    while i < row.pk_columns.len()
        invariant
            i <= row.pk_columns@.len(),
            view == row@,
            m == decimals(reals@),
            pk == view.pk_columns,
            row.op != 2,
            row.pk_values@.len() == 0,
            row_printable(view, m),
            views(r@) == image_key(pk.take(i as int), view, m),
        decreases row.pk_columns@.len() - i,
    {
        assert(pk.take(i + 1).drop_last() =~= pk.take(i as int));
        assert(pk.take(i + 1).last() == row.pk_columns@[i as int]@);
        assert(view.pk_columns[i as int] == row.pk_columns@[i as int]@);
        assert(view.pk_values.len() == 0);
        if let Some(at) = find(&row.columns, row.pk_columns[i].as_str()) {
            assert(at < row.values@.len());
            assert(renderable(view.values[at as int], m));
            r.push(fmt_value(&row.values[at], reals));
        }
        i = i + 1;
    }
    assert(pk.take(i as int) =~= pk);
    r
}

fn fmt_columns(row: &RowEvent, reals: &HashMap<u64, String>) -> (r: Vec<String>)
    requires
        all_renderable(row@.values, decimals(reals@)),
    ensures
        views(r@) == shown_columns(row@, decimals(reals@)),
{
    let ghost view = row@;
    let ghost m = decimals(reals@);
    let mut r: Vec<String> = Vec::new();
    let mut i: usize = 0;
    while i < row.columns.len() && i < row.values.len()
        invariant
            i <= row.columns@.len(),
            i <= row.values@.len(),
            r@.len() == i,
            view == row@,
            m == decimals(reals@),
            all_renderable(view.values, m),
            forall|k: int|
                0 <= k < i ==> (#[trigger] r@[k])@ == view.columns[k] + "="@ + shown_value(
                    view.values[k],
                    m,
                ),
        decreases row.columns@.len() - i,
    {
        assert(renderable(view.values[i as int], m));
        let mut text = row.columns[i].clone();
        text.append("=");
        text.append(fmt_value(&row.values[i], reals).as_str());
        r.push(text);
        i = i + 1;
    }
    assert(views(r@) =~= shown_columns(view, m));
    r
}

fn fmt_row(row: &RowEvent, reals: &HashMap<u64, String>) -> (r: String)
    requires
        row_printable(row@, decimals(reals@)),
    ensures
        r@ == row_line(row@, decimals(reals@)),
{
    let op: Op = match Op::from_i32(row.op) {
        Some(op) => op,
        None => Op::Insert,
    };
    assert(op == shown_op(row.op)) by {
        assert(Op::Insert.number() == 0 && Op::Update.number() == 1 && Op::Delete.number() == 2);
    }
    let key = fmt_key(row, reals);
    assert(views(key@).len() == key@.len());
    let mut r = "  ".to_owned();
    r.append(op_label(op));
    r.append(" table=\"");
    r.append(row.table.as_str());
    r.append("\" ");
    let ghost head = r@;
    if key.len() > 0 {
        r.append("pk=[");
        r.append(join(&key, ", ").as_str());
        r.append("] ");
        assert(r@ =~= head + ("pk=["@ + joined(views(key@), ", "@) + "] "@));
    } else {
        assert(r@ =~= head + seq![]);
    }
    if op != Op::Delete {
        r.append(join(&fmt_columns(row, reals), ", ").as_str());
    }
    assert(r@ =~= row_line(row@, decimals(reals@)));
    r
}

/// Shows one transaction, a line each for its head, its changed rows and its
/// schema changes.
pub fn fmt_tx(tx: &Transaction, reals: &HashMap<u64, String>) -> (r: Vec<String>)
    requires
        tx_printable(tx@, decimals(reals@)),
    ensures
        views(r@) == tx_lines(tx@, decimals(reals@)),
{
    let ghost view = tx@;
    let ghost m = decimals(reals@);
    let mut head = "txn lsn=".to_owned();
    push_decimal(&mut head, tx.lsn);
    head.append(" commit=");
    head.append(fmt_utc(tx.commit_ts_ms).as_str());
    head.append(" rows=");
    push_decimal(&mut head, tx.rows.len() as u64);
    head.append(" ddl=");
    push_decimal(&mut head, tx.ddl.len() as u64);
    assert(head@ =~= head_line(view));
    let mut out: Vec<String> = Vec::new();
    out.push(head);
    let ghost first = seq![head_line(view)];
    let ghost rows = view.rows.map_values(|r: Row| row_line(r, m));
    assert(views(out@) =~= first + rows.take(0));
    let mut i: usize = 0;
    while i < tx.rows.len()
        invariant
            i <= tx.rows@.len(),
            view == tx@,
            m == decimals(reals@),
            tx_printable(view, m),
            rows == view.rows.map_values(|r: Row| row_line(r, m)),
            views(out@) == first + rows.take(i as int),
        decreases tx.rows@.len() - i,
    {
        assert(row_printable(view.rows[i as int], m));
        out.push(fmt_row(&tx.rows[i], reals));
        assert(rows.take(i + 1) =~= rows.take(i as int).push(rows[i as int]));
        assert(views(out@) =~= first + rows.take(i + 1));
        i = i + 1;
    }
    assert(rows.take(i as int) =~= rows);
    let ghost before_ddl = views(out@);
    let mut j: usize = 0;
    assert(view.ddl.take(0) =~= seq![]);
    assert(views(out@) =~= before_ddl + ddl_lines(view.ddl.take(0)));
    while j < tx.ddl.len()
        invariant
            j <= tx.ddl@.len(),
            view == tx@,
            views(out@) == before_ddl + ddl_lines(view.ddl.take(j as int)),
        decreases tx.ddl@.len() - j,
    {
        let ghost before = views(out@);
        let ghost stmts = views(tx.ddl@[j as int].statements@);
        let ghost done = stmts.map_values(|s: Seq<char>| ddl_line(s));
        let mut k: usize = 0;
        assert(views(out@) =~= before + done.take(0));
        while k < tx.ddl[j].statements.len()
            invariant
                j < tx.ddl@.len(),
                k <= tx.ddl@[j as int].statements@.len(),
                stmts == views(tx.ddl@[j as int].statements@),
                done == stmts.map_values(|s: Seq<char>| ddl_line(s)),
                views(out@) == before + done.take(k as int),
            decreases tx.ddl@[j as int].statements@.len() - k,
        {
            let mut line = "  DDL    ".to_owned();
            line.append(tx.ddl[j].statements[k].as_str());
            out.push(line);
            assert(done.take(k + 1) =~= done.take(k as int).push(done[k as int]));
            assert(views(out@) =~= before + done.take(k + 1));
            k = k + 1;
        }
        proof {
            assert(done.take(k as int) =~= done);
            assert(view.ddl.take(j + 1).drop_last() =~= view.ddl.take(j as int));
            assert(view.ddl.take(j + 1).last() == stmts);
            assert(views(out@) =~= before_ddl + ddl_lines(view.ddl.take(j + 1)));
        }
        j = j + 1;
    }
    assert(view.ddl.take(j as int) =~= view.ddl);
    out
}

fn can_print_row(row: &RowEvent, reals: &HashMap<u64, String>) -> (r: bool)
    ensures
        r == row_printable(row@, decimals(reals@)),
{
    let ghost view = row@;
    if !has_reals(&row.values, reals) || !has_reals(&row.pk_values, reals) {
        return false;
    }
    if row.pk_values.len() > 0 || row.op == 2 {
        return true;
    }
    let mut i: usize = 0;
    while i < row.pk_columns.len()
        invariant
            i <= row.pk_columns@.len(),
            view == row@,
            row.op != 2,
            view.pk_values.len() == 0,
            forall|k: int|
                0 <= k < i ==> position(view.columns, #[trigger] view.pk_columns[k])
                    < view.columns.len() ==> position(view.columns, view.pk_columns[k])
                    < view.values.len(),
        decreases row.pk_columns@.len() - i,
    {
        assert(view.pk_columns[i as int] == row.pk_columns@[i as int]@);
        if let Some(at) = find(&row.columns, row.pk_columns[i].as_str()) {
            if at >= row.values.len() {
                return false;
            }
        }
        i = i + 1;
    }
    true
}

/// Whether all changed rows of a transaction can be shown.
pub fn can_print(tx: &Transaction, reals: &HashMap<u64, String>) -> (r: bool)
    ensures
        r == tx_printable(tx@, decimals(reals@)),
{
    let mut i: usize = 0;
    while i < tx.rows.len()
        invariant
            i <= tx.rows@.len(),
            forall|k: int|
                0 <= k < i ==> row_printable(#[trigger] tx@.rows[k], decimals(reals@)),
        decreases tx.rows@.len() - i,
    {
        assert(tx@.rows[i as int] == tx.rows@[i as int]@);
        if !can_print_row(&tx.rows[i], reals) {
            return false;
        }
        i = i + 1;
    }
    true
}

// ---------------------------------------------------------------------------
// Segments
// ---------------------------------------------------------------------------

/// The longest content that a record is shown with.
pub const MAX_RECORD: u64 = 67_108_864;

/// Why a segment cannot be read on. The numbers are those of the records
/// before.
#[derive(Clone, Copy, Debug, PartialEq, Eq, Structural)]
pub enum InspectError {
    TornVarint,
    VarintTooLong,
    ImplausibleLength(u64),
    TornRecord(u64),
    CorruptRecord(u64),
}

impl InspectError {
    /// What is said of the file at `path`.
    pub open spec fn text(self, path: Seq<char>) -> Seq<char> {
        match self {
            InspectError::TornVarint => "binlog-inspect: torn varint"@,
            InspectError::VarintTooLong => "binlog-inspect: varint too long"@,
            InspectError::ImplausibleLength(len) => "binlog-inspect: implausible record length "@
                + decimal(len as nat) + " in "@ + path,
            InspectError::TornRecord(count) => "binlog-inspect: torn record after "@ + decimal(
                count as nat,
            ) + " records in "@ + path,
            InspectError::CorruptRecord(count) => "binlog-inspect: corrupt record after "@
                + decimal(count as nat) + " records in "@ + path,
        }
    }

    pub fn message(&self, path: &str) -> (r: String)
        ensures
            r@ == self.text(path@),
    {
        match self {
            InspectError::TornVarint => "binlog-inspect: torn varint".to_owned(),
            InspectError::VarintTooLong => "binlog-inspect: varint too long".to_owned(),
            InspectError::ImplausibleLength(len) => {
                let mut r = "binlog-inspect: implausible record length ".to_owned();
                push_decimal(&mut r, *len);
                r.append(" in ");
                r.append(path);
                r
            },
            InspectError::TornRecord(count) => {
                let mut r = "binlog-inspect: torn record after ".to_owned();
                push_decimal(&mut r, *count);
                r.append(" records in ");
                r.append(path);
                r
            },
            InspectError::CorruptRecord(count) => {
                let mut r = "binlog-inspect: corrupt record after ".to_owned();
                push_decimal(&mut r, *count);
                r.append(" records in ");
                r.append(path);
                r
            },
        }
    }
}

/// What stands next in a segment that is being shown.
#[verifier::ext_equal]
pub enum Found {
    /// That transaction, in a record of so many bytes.
    Tx(Tx, nat),
    /// Nothing more.
    End,
    Failed(InspectError),
}

/// What stands at the start of `bytes`, behind `count` records.
pub open spec fn found(bytes: Seq<u8>, count: u64) -> Found {
    match parse_frame(bytes) {
        Frame::End => Found::End,
        Frame::NoLength(e) => Found::Failed(
            if e == BinlogError::VarintTooLong {
                InspectError::VarintTooLong
            } else {
                InspectError::TornVarint
            },
        ),
        Frame::Short(len) => Found::Failed(
            if len > MAX_RECORD {
                InspectError::ImplausibleLength(len)
            } else {
                InspectError::TornRecord(count)
            },
        ),
        Frame::Record(body, n) => if body.len() > MAX_RECORD {
            Found::Failed(InspectError::ImplausibleLength(body.len() as u64))
        } else {
            match parse_tx(body) {
                Some(tx) => Found::Tx(tx, n),
                None => Found::Failed(InspectError::CorruptRecord(count)),
            }
        },
    }
}

/// A segment that is being shown, record by record. It is never changed: a
/// record that is torn or corrupt is reported.
pub struct Inspector {
    bytes: Vec<u8>,
    pos: usize,
    count: u64,
}

impl Inspector {
    /// What is left of the segment.
    pub closed spec fn rest(&self) -> Seq<u8> {
        self.bytes@.skip(self.pos as int)
    }

    /// The records shown so far.
    pub closed spec fn shown(&self) -> u64 {
        self.count
    }

    /// Every record shown takes a byte at least.
    pub closed spec fn wf(&self) -> bool {
        self.count <= self.pos <= self.bytes@.len() <= usize::MAX
    }

    pub fn new(bytes: Vec<u8>) -> (r: Self)
        ensures
            r.wf(),
            r.rest() == bytes@,
            r.shown() == 0,
    {
        let len: usize = bytes.len();
        let r = Inspector { bytes, pos: 0, count: 0 };
        assert(r.rest() =~= bytes@);
        r
    }

    /// The number of records shown so far.
    pub fn count(&self) -> (r: u64)
        ensures
            r == self.shown(),
    {
        self.count
    }

    /// The next transaction, the end, or why the segment cannot be read on.
    pub fn next(&mut self) -> (r: Result<Option<Transaction>, InspectError>)
        requires
            old(self).wf(),
        ensures
            final(self).wf(),
            match found(old(self).rest(), old(self).shown()) {
                Found::Tx(tx, n) => {
                    &&& r is Ok && r->Ok_0 is Some
                    &&& r->Ok_0->Some_0@ == tx
                    &&& final(self).rest() == old(self).rest().skip(n as int)
                    &&& final(self).shown() == old(self).shown() + 1
                },
                Found::End => r is Ok && r->Ok_0 is None && *final(self) == *old(self),
                Found::Failed(e) => {
                    &&& r == Err::<Option<Transaction>, _>(e)
                    &&& *final(self) == *old(self)
                },
            },
    {
        match read_frame(self.bytes.as_slice(), self.pos) {
            Framed::End => Ok(None),
            Framed::NoLength(e) => if e == BinlogError::VarintTooLong {
                Err(InspectError::VarintTooLong)
            } else {
                Err(InspectError::TornVarint)
            },
            Framed::Short(len) => if len > MAX_RECORD {
                Err(InspectError::ImplausibleLength(len))
            } else {
                Err(InspectError::TornRecord(self.count))
            },
            Framed::Record(from, to) => {
                let len: u64 = (to - from) as u64;
                if len > MAX_RECORD {
                    return Err(InspectError::ImplausibleLength(len));
                }
                match Transaction::decode(
                    vstd::slice::slice_subrange(self.bytes.as_slice(), from, to),
                ) {
                    Ok(tx) => {
                        let ghost pos = self.pos as int;
                        assert(self.bytes@.skip(pos).skip(to - pos) =~= self.bytes@.skip(
                            to as int,
                        ));
                        self.pos = to;
                        self.count = self.count + 1;
                        Ok(Some(tx))
                    },
                    Err(_) => Err(InspectError::CorruptRecord(self.count)),
                }
            },
        }
    }
}

} // verus!
