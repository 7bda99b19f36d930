//! The dump of a log: every record is shown, every change of it has its line,
//! and every value and time stands there as it is.

use crate::binlog::codec::{parse_tx, tx_bytes};
use crate::binlog::segment::{parse_frame, record, record_stands, BinlogError, Frame};
use crate::binlog::value::Scalar;
use crate::binlog::{Op, Row, Tx};
use crate::calendar::{day_number, days_before, is_date, leap_years_step};
use crate::inspect::{
    ddl_lines, escaped, escaped_char, found, head_line, image_key, is_utc, label, padded_signed,
    row_line, row_printable, shown_bytes, shown_columns, shown_key, shown_op, shown_value,
    timestamp, tx_lines, tx_printable, utc_text, Found, InspectError,
};
use crate::sql::{hex, joined};
use crate::sync::{position, row_renderable};
use crate::text::{decimal, padded, signed_decimal};
use vstd::arithmetic::div_mod::{lemma_fundamental_div_mod_converse, lemma_mod_multiples_vanish};
use vstd::prelude::*;

verus! {

// ---------------------------------------------------------------------------
// Records
// ---------------------------------------------------------------------------

/// A record that was written is shown, whatever follows it and however many
/// stand before it, up to 64 MiB.
pub proof fn written_records_are_shown(tx: Tx, rest: Seq<u8>, count: u64)
    requires
        tx_bytes(tx).len() <= 64 * 1024 * 1024,
    ensures
        found(record(tx) + rest, count) == Found::Tx(tx, record(tx).len()),
        (record(tx) + rest).skip(record(tx).len() as int) == rest,
        found(Seq::<u8>::empty(), count) == Found::End,
{
    record_stands(tx, rest);
}

/// A record of more than 64 MiB is not taken for one, nor is a length that
/// promises as much.
pub proof fn implausible_lengths_are_told(bytes: Seq<u8>, count: u64)
    ensures
        parse_frame(bytes) matches Frame::Record(body, _) ==> (body.len() > 64 * 1024 * 1024
            ==> found(bytes, count) == Found::Failed(
            InspectError::ImplausibleLength(body.len() as u64),
        )),
        parse_frame(bytes) matches Frame::Record(body, _) ==> (body.len() <= 64 * 1024 * 1024
            && parse_tx(body) is None ==> found(bytes, count) == Found::Failed(
            InspectError::CorruptRecord(count),
        )),
        parse_frame(bytes) matches Frame::Short(len) ==> found(bytes, count) == Found::Failed(
            if len > 64 * 1024 * 1024 {
                InspectError::ImplausibleLength(len)
            } else {
                InspectError::TornRecord(count)
            },
        ),
        parse_frame(bytes) matches Frame::NoLength(e) ==> found(bytes, count) matches Found::Failed(
            f,
        ) && (f is VarintTooLong <==> e == BinlogError::VarintTooLong) && (f is TornVarint <==> e
            != BinlogError::VarintTooLong),
{
}

/// A transaction has a line at its head, then one for each changed row, in
/// order, then one for each schema statement, in order.
pub proof fn every_change_has_its_line(tx: Tx, reals: Map<u64, Seq<char>>, i: int)
    requires
        0 <= i < tx.rows.len(),
    ensures
        tx_lines(tx, reals).len() == 1 + tx.rows.len() + ddl_lines(tx.ddl).len(),
        tx_lines(tx, reals)[0] == head_line(tx),
        tx_lines(tx, reals)[1 + i] == row_line(tx.rows[i], reals),
        tx_lines(tx, reals).skip((1 + tx.rows.len()) as int) == ddl_lines(tx.ddl),
{
    assert(tx_lines(tx, reals).skip((1 + tx.rows.len()) as int) =~= ddl_lines(tx.ddl));
}

/// Each schema statement is shown as it was written.
pub proof fn every_schema_statement_has_its_line(
    ddl: Seq<Seq<Seq<char>>>,
    stmts: Seq<Seq<char>>,
    k: int,
)
    requires
        0 <= k < stmts.len(),
    ensures
        ddl_lines(ddl.push(stmts)).len() == ddl_lines(ddl).len() + stmts.len(),
        ddl_lines(ddl.push(stmts))[ddl_lines(ddl).len() + k] == "  DDL    "@ + stmts[k],
        ddl_lines(ddl.push(stmts)).take(ddl_lines(ddl).len() as int) == ddl_lines(ddl),
        ddl_lines(Seq::<Seq<Seq<char>>>::empty()).len() == 0,
{
    assert(ddl.push(stmts).drop_last() =~= ddl);
    assert(ddl_lines(ddl.push(stmts)).take(ddl_lines(ddl).len() as int) =~= ddl_lines(ddl));
}

/// The head tells the LSN, the time of the commit, and how many rows and schema
/// changes there are.
pub proof fn heads_tell_of_the_transaction(tx: Tx)
    ensures
        head_line(tx) == "txn lsn="@ + decimal(tx.lsn as nat) + " commit="@ + utc_text(
            tx.commit_ts_ms as int,
        ) + " rows="@ + decimal(tx.rows.len()) + " ddl="@ + decimal(tx.ddl.len()),
{
}

/// The line of a row tells what was done and in which table, the values of its
/// key, and unless it was deleted every column of it with its value.
pub proof fn lines_tell_of_the_row(r: Row, reals: Map<u64, Seq<char>>, i: int)
    requires
        r.columns.len() == r.values.len(),
        r.op == Op::Insert.number() || r.op == Op::Update.number() || r.op == Op::Delete.number(),
    ensures
        ({
            let op = shown_op(r.op);
            let key = shown_key(r, reals);
            let columns = shown_columns(r, reals);
            let head = "  "@ + label(op) + " table=\""@ + r.table + "\" "@;
            let keyed = if key.len() > 0 {
                head + ("pk=["@ + joined(key, ", "@) + "] "@)
            } else {
                head + seq![]
            };
            &&& op.number() == r.op
            &&& row_line(r, reals) == if op == Op::Delete {
                keyed + seq![]
            } else {
                keyed + joined(columns, ", "@)
            }
            &&& columns.len() == r.columns.len()
            &&& 0 <= i < columns.len() ==> columns[i] == r.columns[i] + "="@ + shown_value(
                r.values[i],
                reals,
            )
            &&& r.pk_values.len() > 0 ==> key.len() == r.pk_values.len() && (0 <= i < key.len()
                ==> key[i] == shown_value(r.pk_values[i], reals))
        }),
        label(Op::Insert) == "INSERT"@,
        label(Op::Update) == "UPDATE"@,
        label(Op::Delete) == "DELETE"@,
{
}

/// The key of a row that is there is shown from its image, column for column.
pub proof fn keys_are_shown_from_the_image(
    pk: Seq<Seq<char>>,
    r: Row,
    reals: Map<u64, Seq<char>>,
    i: int,
)
    requires
        0 <= i < pk.len(),
        forall|k: int|
            0 <= k < pk.len() ==> position(r.columns, #[trigger] pk[k]) < r.columns.len(),
    ensures
        image_key(pk, r, reals).len() == pk.len(),
        image_key(pk, r, reals)[i] == shown_value(
            r.values[position(r.columns, pk[i]) as int],
            reals,
        ),
    decreases pk.len(),
{
    let before = pk.drop_last();
    assert(position(r.columns, pk[pk.len() - 1]) < r.columns.len());
    if before.len() > 0 {
        assert forall|k: int| 0 <= k < before.len() implies position(
            r.columns,
            #[trigger] before[k],
        ) < r.columns.len() by {
            assert(before[k] == pk[k]);
        }
        keys_are_shown_from_the_image(
            before,
            r,
            reals,
            if i < before.len() {
                i
            } else {
                0
            },
        );
        if i < before.len() {
            assert(before[i] == pk[i]);
        }
    } else {
        assert(image_key(before, r, reals).len() == 0);
    }
}

/// What can be rendered can be shown: every record of captured changes is.
pub proof fn rendered_rows_are_shown(r: Row, reals: Map<u64, Seq<char>>)
    requires
        row_renderable(r, reals),
        r.op != Op::Delete.number() ==> r.columns.len() == r.values.len(),
    ensures
        row_printable(r, reals),
{
}

// ---------------------------------------------------------------------------
// Values
// ---------------------------------------------------------------------------

/// Values are shown as they are: numbers in digits, texts between quotes, and
/// bytes in hexadecimal digits, all of them up to 32 and else the first 32.
pub proof fn values_are_shown_as_they_are(v: Scalar, reals: Map<u64, Seq<char>>)
    ensures
        shown_value(None, reals) == "NULL"@,
        v is Null ==> shown_value(Some(v), reals) == "NULL"@,
        v matches Scalar::Integer(i) ==> shown_value(Some(v), reals) == signed_decimal(i as int),
        v matches Scalar::Float(bits) ==> shown_value(Some(v), reals) == reals[bits],
        v matches Scalar::Text(s) ==> shown_value(Some(v), reals) == seq!['"'] + escaped(s) + seq![
            '"',
        ],
        v matches Scalar::Blob(b) ==> {
            &&& b.len() <= 32 ==> shown_value(Some(v), reals) == seq!['X', '\''] + hex(b) + seq![
                '\'',
            ]
            &&& b.len() > 32 ==> shown_value(Some(v), reals) == seq!['X', '\''] + hex(b.take(32))
                + seq!['\u{2026}', '\'']
        },
        v matches Scalar::RawText(b) ==> shown_value(Some(v), reals) == "CAST("@ + shown_bytes(b)
            + " AS TEXT)"@,
{
}

/// A text is shown character by character: what can be shown as itself, quotes
/// and backslashes behind a backslash, and what cannot be seen by its name or
/// number. Nothing that is shown is a control character.
pub proof fn texts_are_shown_by_character(s: Seq<char>, c: char, i: int)
    ensures
        escaped(s.push(c)) == escaped(s) + escaped_char(c),
        escaped(Seq::<char>::empty()).len() == 0,
        (0x20 <= c as u32 <= 0x7e || c as u32 >= 0xa0) && c != '"' && c != '\\' ==> escaped_char(c)
            == seq![c],
        c == '"' || c == '\\' ==> escaped_char(c) == seq!['\\', c],
        c == '\n' ==> escaped_char(c) == seq!['\\', 'n'],
        c == '\r' ==> escaped_char(c) == seq!['\\', 'r'],
        c == '\t' ==> escaped_char(c) == seq!['\\', 't'],
        0 <= i < escaped_char(c).len() ==> !((escaped_char(c)[i] as u32) < 0x20) && !(0x7f
            <= escaped_char(c)[i] as u32 <= 0x9f),
{
    assert(s.push(c).drop_last() =~= s);
}

// ---------------------------------------------------------------------------
// Times
// ---------------------------------------------------------------------------

/// The calendar: days are counted from the first of January 1970, each day
/// follows the one before it, through the ends of months and years, and a year
/// has a 29th of February where it is a leap year.
pub proof fn days_follow_each_other(y: int, m: int, d: int)
    requires
        is_date(y, m, d),
    ensures
        day_number(1970, 1, 1) == 0,
        is_date(y, m, d + 1) ==> day_number(y, m, d + 1) == day_number(y, m, d) + 1,
        !is_date(y, m, d + 1) && m < 12 ==> day_number(y, m + 1, 1) == day_number(y, m, d) + 1,
        !is_date(y, m, d + 1) && m == 12 ==> day_number(y + 1, 1, 1) == day_number(y, m, d) + 1,
        is_date(y, 2, 29) <==> y % 4 == 0 && (y % 100 != 0 || y % 400 == 0),
        is_date(y, 2, 28) && !is_date(y, 2, 30),
        is_date(y, 4, 30) && !is_date(y, 4, 31),
        is_date(y, 6, 30) && !is_date(y, 6, 31),
        is_date(y, 9, 30) && !is_date(y, 9, 31),
        is_date(y, 11, 30) && !is_date(y, 11, 31),
        is_date(y, 1, 31) && is_date(y, 3, 31) && is_date(y, 5, 31) && is_date(y, 7, 31),
        is_date(y, 8, 31) && is_date(y, 10, 31) && is_date(y, 12, 31),
        !is_date(y, 13, d) && !is_date(y, 0, d) && !is_date(y, m, 0) && !is_date(y, m, 32),
{
    reveal_with_fuel(days_before, 13);
    leap_years_step(y);
}

proof fn day_and_rest(day: int, part: int)
    requires
        0 <= part < 86400000,
    ensures
        (day * 86400000 + part) / 86400000 == day,
        (day * 86400000 + part) % 86400000 == part,
        (day * 86400000 + part) % 1000 == part % 1000,
{
    let ms = day * 86400000 + part;
    lemma_fundamental_div_mod_converse(ms, 86400000, day, part);
    lemma_mod_multiples_vanish(day * 86400, part, 1000);
}

proof fn part_of_day(hours: int, minutes: int, seconds: int, millis: int)
    requires
        0 <= hours < 24,
        0 <= minutes < 60,
        0 <= seconds < 60,
        0 <= millis < 1000,
    ensures
        ({
            let part = hours * 3600000 + minutes * 60000 + seconds * 1000 + millis;
            &&& 0 <= part < 86400000
            &&& part % 1000 == millis
            &&& part / 1000 == hours * 3600 + minutes * 60 + seconds
            &&& (part / 1000) / 3600 == hours
            &&& ((part / 1000) % 3600) / 60 == minutes
            &&& (part / 1000) % 60 == seconds
        }),
{
    let part = hours * 3600000 + minutes * 60000 + seconds * 1000 + millis;
    let of_day = hours * 3600 + minutes * 60 + seconds;
    lemma_fundamental_div_mod_converse(part, 1000, of_day, millis);
    lemma_fundamental_div_mod_converse(of_day, 3600, hours, minutes * 60 + seconds);
    lemma_fundamental_div_mod_converse(minutes * 60 + seconds, 60, minutes, seconds);
    lemma_fundamental_div_mod_converse(of_day, 60, hours * 60 + minutes, seconds);
}

/// A time is shown as its date and its hours, minutes, seconds and milliseconds,
/// each with its own number of digits.
pub proof fn times_are_shown_by_their_parts(
    text: Seq<char>,
    y: int,
    m: int,
    d: int,
    hours: int,
    minutes: int,
    seconds: int,
    millis: int,
)
    requires
        is_date(y, m, d),
        0 <= hours < 24,
        0 <= minutes < 60,
        0 <= seconds < 60,
        0 <= millis < 1000,
        is_utc(
            text,
            day_number(y, m, d) * 86400000 + hours * 3600000 + minutes * 60000 + seconds * 1000
                + millis,
        ),
    ensures
        text == padded_signed(y, 4) + "-"@ + padded(m as nat, 2) + "-"@ + padded(d as nat, 2) + "T"@
            + padded(hours as nat, 2) + ":"@ + padded(minutes as nat, 2) + ":"@ + padded(
            seconds as nat,
            2,
        ) + "."@ + padded(millis as nat, 3) + "Z"@,
{
    let day = day_number(y, m, d);
    let part = hours * 3600000 + minutes * 60000 + seconds * 1000 + millis;
    let ms = day * 86400000 + hours * 3600000 + minutes * 60000 + seconds * 1000 + millis;
    part_of_day(hours, minutes, seconds, millis);
    day_and_rest(day, part);
    assert(ms == day * 86400000 + part);
    let (y2, m2, d2) = choose|y2: int, m2: int, d2: int|
        is_date(y2, m2, d2) && #[trigger] day_number(y2, m2, d2) == ms / 86400000 && text
            == timestamp(y2, m2, d2, (ms % 86400000) / 1000, ms % 1000);
    crate::calendar::day_number_is_unique(y, m, d, y2, m2, d2);
}

/// A year before the first is its number behind a minus sign, which counts among
/// its digits.
pub proof fn early_years_have_a_sign(y: int, width: nat)
    requires
        width > 0,
    ensures
        y >= 0 ==> padded_signed(y, width) == padded(y as nat, width),
        y < 0 ==> padded_signed(y, width) == seq!['-'] + padded((-y) as nat, (width - 1) as nat),
{
}

/// A number is filled up with zeros to its width, and written whole where it
/// needs more.
pub proof fn numbers_are_filled_up(v: nat, width: nat, i: int)
    ensures
        decimal(v).len() >= width ==> padded(v, width) == decimal(v),
        decimal(v).len() < width ==> padded(v, width).len() == width && padded(v, width).skip(
            width - decimal(v).len(),
        ) == decimal(v) && (0 <= i < width - decimal(v).len() ==> padded(v, width)[i] == '0'),
{
    if decimal(v).len() < width {
        assert(padded(v, width).skip(width - decimal(v).len()) =~= decimal(v));
    }
}

/// A transaction of which every row can be shown is shown, however many rows it
/// has.
pub proof fn transactions_are_shown_row_by_row(tx: Tx, reals: Map<u64, Seq<char>>)
    requires
        forall|i: int| 0 <= i < tx.rows.len() ==> row_printable(#[trigger] tx.rows[i], reals),
    ensures
        tx_printable(tx, reals),
{
}

} // verus!
