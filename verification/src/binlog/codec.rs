//! The stored form of a transaction: Protocol Buffers messages. Every field
//! at its default is left out, fields stand in the order of their numbers, and
//! a reader skips fields it does not know.

use crate::binlog::value::{Empty, Scalar};
use crate::binlog::{value, DdlEvent, Row, RowEvent, Transaction, Tx, Value};
use crate::model::{group_views, views};
use crate::wire::{
    fixed64_field, fixed64_field_round_trip, get_field, is_tag, len_field, len_field_round_trip,
    len_fields, parse_field, put_fixed64_field, put_len_field, put_varint_field, utf8_text,
    varint_field, varint_field_round_trip, Field, FieldView,
};
use vstd::prelude::*;
use vstd::utf8::{decode_utf8, encode_utf8, valid_utf8};

verus! {

broadcast use group_views;

// ---------------------------------------------------------------------------
// Numbers
// ---------------------------------------------------------------------------

/// Signed numbers in turn: 0, -1, 1, -2, ...
pub open spec fn zigzag(v: i64) -> u64 {
    if v >= 0 {
        (2 * v) as u64
    } else {
        (-2 * v - 1) as u64
    }
}

pub open spec fn unzigzag(v: u64) -> i64 {
    if v % 2 == 0 {
        (v / 2) as i64
    } else {
        (-(v / 2) - 1) as i64
    }
}

/// The 64 bits of a signed number.
pub open spec fn i64_bits(v: i64) -> u64 {
    if v >= 0 {
        v as u64
    } else {
        (v + 0x1_0000_0000_0000_0000) as u64
    }
}

pub open spec fn bits_i64(v: u64) -> i64 {
    if v < 0x8000_0000_0000_0000 {
        v as i64
    } else {
        (v - 0x1_0000_0000_0000_0000) as i64
    }
}

/// The signed number that the low 32 bits hold.
pub open spec fn bits_i32(v: u64) -> i32 {
    let low = v % 0x1_0000_0000;
    if low < 0x8000_0000 {
        low as i32
    } else {
        (low - 0x1_0000_0000) as i32
    }
}

fn to_zigzag(v: i64) -> (r: u64)
    ensures
        r == zigzag(v),
{
    if v >= 0 {
        2 * (v as u64)
    } else {
        2 * ((-(v + 1)) as u64) + 1
    }
}

fn from_zigzag(v: u64) -> (r: i64)
    ensures
        r == unzigzag(v),
{
    if v % 2 == 0 {
        (v / 2) as i64
    } else {
        -((v / 2) as i64) - 1
    }
}

fn to_bits(v: i64) -> (r: u64)
    ensures
        r == i64_bits(v),
{
    if v >= 0 {
        v as u64
    } else {
        0xffff_ffff_ffff_ffff - ((-(v + 1)) as u64)
    }
}

fn from_bits(v: u64) -> (r: i64)
    ensures
        r == bits_i64(v),
{
    if v < 0x8000_0000_0000_0000 {
        v as i64
    } else {
        -((0xffff_ffff_ffff_ffff - v) as i64) - 1
    }
}

fn low_i32(v: u64) -> (r: i32)
    ensures
        r == bits_i32(v),
{
    let low: i64 = (v % 0x1_0000_0000) as i64;
    if low < 0x8000_0000 {
        low as i32
    } else {
        (low - 0x1_0000_0000) as i32
    }
}

// ---------------------------------------------------------------------------
// Messages as byte sequences
// ---------------------------------------------------------------------------

/// Takes the fields of `bytes`, a message within `level` others, one after the
/// other into `acc`. `None` where
/// the bytes are not fields, or `take` refuses one.
pub open spec fn merge<A>(
    acc: A,
    bytes: Seq<u8>,
    take: spec_fn(A, nat, FieldView) -> Option<A>,
    level: nat,
) -> Option<A>
    decreases bytes.len(),
{
    if bytes.len() == 0 {
        Some(acc)
    } else {
        match parse_field(bytes, level) {
            None => None,
            Some((tag, field, n)) => match take(acc, tag, field) {
                None => None,
                Some(next) => if 0 < n <= bytes.len() {
                    merge(next, bytes.skip(n as int), take, level)
                } else {
                    None
                },
            },
        }
    }
}

/// The text that a field carries, where it carries one.
pub open spec fn field_text(field: FieldView) -> Option<Seq<char>> {
    match field {
        FieldView::Len(bytes) => if valid_utf8(bytes) {
            Some(decode_utf8(bytes))
        } else {
            None
        },
        _ => None,
    }
}

pub open spec fn take_empty() -> spec_fn((), nat, FieldView) -> Option<()> {
    |acc: (), tag: nat, field: FieldView| Some(())
}

/// The fields of a value: at most one of them counts, the last.
pub open spec fn take_value(level: nat) -> spec_fn(
    Option<Scalar>,
    nat,
    FieldView,
) -> Option<Option<Scalar>> {
    |acc: Option<Scalar>, tag: nat, field: FieldView|
        if tag == 1 {
            match field {
                FieldView::Len(bytes) => match merge((), bytes, take_empty(), level + 1) {
                    Some(_) => Some(Some(Scalar::Null)),
                    None => None,
                },
                _ => None,
            }
        } else if tag == 2 {
            match field {
                FieldView::Varint(v) => Some(Some(Scalar::Integer(unzigzag(v)))),
                _ => None,
            }
        } else if tag == 3 {
            match field {
                FieldView::Fixed64(v) => Some(Some(Scalar::Float(v))),
                _ => None,
            }
        } else if tag == 4 {
            match field_text(field) {
                Some(s) => Some(Some(Scalar::Text(s))),
                None => None,
            }
        } else if tag == 5 {
            match field {
                FieldView::Len(bytes) => Some(Some(Scalar::Blob(bytes))),
                _ => None,
            }
        } else if tag == 6 {
            match field {
                FieldView::Len(bytes) => Some(Some(Scalar::RawText(bytes))),
                _ => None,
            }
        } else {
            Some(acc)
        }
}

/// The value that `bytes` hold.
pub open spec fn parse_value(bytes: Seq<u8>, level: nat) -> Option<Option<Scalar>> {
    merge(None, bytes, take_value(level), level)
}

pub open spec fn field_value(field: FieldView, level: nat) -> Option<Option<Scalar>> {
    match field {
        FieldView::Len(bytes) => parse_value(bytes, level),
        _ => None,
    }
}

pub open spec fn take_row(level: nat) -> spec_fn(Row, nat, FieldView) -> Option<Row> {
    |acc: Row, tag: nat, field: FieldView|
        if tag == 1 {
            match field_text(field) {
                Some(table) => Some(Row { table, ..acc }),
                None => None,
            }
        } else if tag == 2 {
            match field {
                FieldView::Varint(v) => Some(Row { op: bits_i32(v), ..acc }),
                _ => None,
            }
        } else if tag == 3 {
            match field_text(field) {
                Some(s) => Some(Row { pk_columns: acc.pk_columns.push(s), ..acc }),
                None => None,
            }
        } else if tag == 4 {
            match field_value(field, level + 1) {
                Some(v) => Some(Row { pk_values: acc.pk_values.push(v), ..acc }),
                None => None,
            }
        } else if tag == 5 {
            match field_text(field) {
                Some(s) => Some(Row { columns: acc.columns.push(s), ..acc }),
                None => None,
            }
        } else if tag == 6 {
            match field_value(field, level + 1) {
                Some(v) => Some(Row { values: acc.values.push(v), ..acc }),
                None => None,
            }
        } else {
            Some(acc)
        }
}

pub open spec fn empty_row() -> Row {
    Row {
        table: seq![],
        op: 0,
        pk_columns: seq![],
        pk_values: seq![],
        columns: seq![],
        values: seq![],
    }
}

/// The row event that `bytes` hold.
pub open spec fn parse_row(bytes: Seq<u8>, level: nat) -> Option<Row> {
    merge(empty_row(), bytes, take_row(level), level)
}

pub open spec fn take_ddl() -> spec_fn(Seq<Seq<char>>, nat, FieldView) -> Option<Seq<Seq<char>>> {
    |acc: Seq<Seq<char>>, tag: nat, field: FieldView|
        if tag == 1 {
            match field_text(field) {
                Some(s) => Some(acc.push(s)),
                None => None,
            }
        } else {
            Some(acc)
        }
}

/// The schema change that `bytes` hold.
pub open spec fn parse_ddl(bytes: Seq<u8>, level: nat) -> Option<Seq<Seq<char>>> {
    merge(seq![], bytes, take_ddl(), level)
}

pub open spec fn take_tx() -> spec_fn(Tx, nat, FieldView) -> Option<Tx> {
    |acc: Tx, tag: nat, field: FieldView|
        if tag == 1 {
            match field {
                FieldView::Varint(lsn) => Some(Tx { lsn, ..acc }),
                _ => None,
            }
        } else if tag == 2 {
            match field {
                FieldView::Varint(v) => Some(Tx { commit_ts_ms: bits_i64(v), ..acc }),
                _ => None,
            }
        } else if tag == 3 {
            match field {
                FieldView::Len(bytes) => match parse_row(bytes, 1) {
                    Some(row) => Some(Tx { rows: acc.rows.push(row), ..acc }),
                    None => None,
                },
                _ => None,
            }
        } else if tag == 4 {
            match field {
                FieldView::Len(bytes) => match parse_ddl(bytes, 1) {
                    Some(ddl) => Some(Tx { ddl: acc.ddl.push(ddl), ..acc }),
                    None => None,
                },
                _ => None,
            }
        } else {
            Some(acc)
        }
}

pub open spec fn empty_tx() -> Tx {
    Tx { lsn: 0, commit_ts_ms: 0, rows: seq![], ddl: seq![] }
}

/// The transaction that `bytes` hold.
#[verifier::opaque]
pub open spec fn parse_tx(bytes: Seq<u8>) -> Option<Tx> {
    merge(empty_tx(), bytes, take_tx(), 0)
}

/// A text field; the empty text is left out.
pub open spec fn text_field(tag: nat, s: Seq<char>) -> Seq<u8> {
    if s.len() == 0 {
        seq![]
    } else {
        len_field(tag, encode_utf8(s))
    }
}

/// A number's field; zero is left out.
pub open spec fn number_field(tag: nat, v: u64) -> Seq<u8> {
    if v == 0 {
        seq![]
    } else {
        varint_field(tag, v)
    }
}

pub open spec fn text_fields(tag: nat, items: Seq<Seq<char>>) -> Seq<u8> {
    len_fields(tag, items.map_values(|s: Seq<char>| encode_utf8(s)))
}

/// A value's message. The field that tells what it holds is never left out.
pub open spec fn value_bytes(v: Option<Scalar>) -> Seq<u8> {
    match v {
        None => seq![],
        Some(Scalar::Null) => len_field(1, seq![]),
        Some(Scalar::Integer(i)) => varint_field(2, zigzag(i)),
        Some(Scalar::Float(bits)) => fixed64_field(3, bits),
        Some(Scalar::Text(s)) => len_field(4, encode_utf8(s)),
        Some(Scalar::Blob(b)) => len_field(5, b),
        Some(Scalar::RawText(b)) => len_field(6, b),
    }
}

pub open spec fn value_fields(tag: nat, items: Seq<Option<Scalar>>) -> Seq<u8> {
    len_fields(tag, items.map_values(|v: Option<Scalar>| value_bytes(v)))
}

/// A row event's message.
pub open spec fn row_bytes(r: Row) -> Seq<u8> {
    text_field(1, r.table) + number_field(2, i64_bits(r.op as i64)) + text_fields(3, r.pk_columns)
        + value_fields(4, r.pk_values) + text_fields(5, r.columns) + value_fields(6, r.values)
}

/// A schema change's message.
pub open spec fn ddl_bytes(statements: Seq<Seq<char>>) -> Seq<u8> {
    text_fields(1, statements)
}

/// A transaction's message.
#[verifier::opaque]
pub open spec fn tx_bytes(tx: Tx) -> Seq<u8> {
    number_field(1, tx.lsn) + number_field(2, i64_bits(tx.commit_ts_ms)) + len_fields(
        3,
        tx.rows.map_values(|r: Row| row_bytes(r)),
    ) + len_fields(4, tx.ddl.map_values(|d: Seq<Seq<char>>| ddl_bytes(d)))
}

// ---------------------------------------------------------------------------
// Writing
// ---------------------------------------------------------------------------

fn put_text_field(out: &mut Vec<u8>, tag: u32, s: &String)
    requires
        is_tag(tag as nat),
    ensures
        final(out)@ == old(out)@ + text_field(tag as nat, s@),
{
    let bytes = s.as_str().as_bytes();
    if bytes.len() > 0 {
        assert(s@.len() > 0);
        put_len_field(out, tag, bytes);
    } else {
        assert(s@.len() == 0) by {
            if s@.len() > 0 {
                vstd::utf8::encode_utf8_first_scalar(s@);
            }
        }
        assert(out@ =~= old(out)@ + text_field(tag as nat, s@));
    }
}

fn put_number_field(out: &mut Vec<u8>, tag: u32, v: u64)
    requires
        is_tag(tag as nat),
    ensures
        final(out)@ == old(out)@ + number_field(tag as nat, v),
{
    if v != 0 {
        put_varint_field(out, tag, v);
    } else {
        assert(out@ =~= old(out)@ + number_field(tag as nat, v));
    }
}

proof fn len_fields_push(tag: nat, payloads: Seq<Seq<u8>>, last: Seq<u8>)
    ensures
        len_fields(tag, payloads.push(last)) == len_fields(tag, payloads) + len_field(tag, last),
{
    assert(payloads.push(last).drop_last() =~= payloads);
}

fn put_text_fields(out: &mut Vec<u8>, tag: u32, items: &Vec<String>)
    requires
        is_tag(tag as nat),
    ensures
        final(out)@ == old(out)@ + text_fields(tag as nat, views(items@)),
{
    let ghost all = views(items@).map_values(|s: Seq<char>| encode_utf8(s));
    let mut i: usize = 0;
    assert(all.take(0) =~= seq![]);
    assert(out@ =~= old(out)@ + len_fields(tag as nat, all.take(0)));
    while i < items.len()
        invariant
            i <= items.len(),
            is_tag(tag as nat),
            all == views(items@).map_values(|s: Seq<char>| encode_utf8(s)),
            out@ == old(out)@ + len_fields(tag as nat, all.take(i as int)),
        decreases items.len() - i,
    {
        put_len_field(out, tag, items[i].as_str().as_bytes());
        proof {
            len_fields_push(tag as nat, all.take(i as int), all[i as int]);
            assert(all.take(i as int).push(all[i as int]) =~= all.take(i + 1));
            assert(out@ =~= old(out)@ + len_fields(tag as nat, all.take(i + 1)));
        }
        i = i + 1;
    }
    assert(all.take(i as int) =~= all);
}

fn put_value_fields(out: &mut Vec<u8>, tag: u32, items: &Vec<Value>)
    requires
        is_tag(tag as nat),
    ensures
        final(out)@ == old(out)@ + value_fields(tag as nat, views(items@)),
{
    let ghost all = views(items@).map_values(|v: Option<Scalar>| value_bytes(v));
    let mut i: usize = 0;
    assert(all.take(0) =~= seq![]);
    assert(out@ =~= old(out)@ + len_fields(tag as nat, all.take(0)));
    while i < items.len()
        invariant
            i <= items.len(),
            is_tag(tag as nat),
            all == views(items@).map_values(|v: Option<Scalar>| value_bytes(v)),
            out@ == old(out)@ + len_fields(tag as nat, all.take(i as int)),
        decreases items.len() - i,
    {
        let bytes = items[i].encode_to_vec();
        put_len_field(out, tag, bytes.as_slice());
        proof {
            len_fields_push(tag as nat, all.take(i as int), all[i as int]);
            assert(all.take(i as int).push(all[i as int]) =~= all.take(i + 1));
            assert(out@ =~= old(out)@ + len_fields(tag as nat, all.take(i + 1)));
        }
        i = i + 1;
    }
    assert(all.take(i as int) =~= all);
}

impl Value {
    /// The value's stored form.
    pub fn encode_to_vec(&self) -> (r: Vec<u8>)
        ensures
            r@ == value_bytes(self@),
    {
        let mut out: Vec<u8> = Vec::new();
        match &self.value {
            None => {},
            Some(value::Value::Null(_)) => {
                let none: Vec<u8> = Vec::new();
                put_len_field(&mut out, 1, none.as_slice());
            },
            Some(value::Value::Integer(v)) => {
                put_varint_field(&mut out, 2, to_zigzag(*v));
            },
            Some(value::Value::Float(bits)) => {
                put_fixed64_field(&mut out, 3, *bits);
            },
            Some(value::Value::Text(s)) => {
                put_len_field(&mut out, 4, s.as_str().as_bytes());
            },
            Some(value::Value::Blob(b)) => {
                put_len_field(&mut out, 5, b.as_slice());
            },
            Some(value::Value::RawText(b)) => {
                put_len_field(&mut out, 6, b.as_slice());
            },
        }
        assert(out@ =~= value_bytes(self@));
        out
    }
}

impl RowEvent {
    /// The event's stored form.
    pub fn encode_to_vec(&self) -> (r: Vec<u8>)
        ensures
            r@ == row_bytes(self@),
    {
        let mut out: Vec<u8> = Vec::new();
        put_text_field(&mut out, 1, &self.table);
        put_number_field(&mut out, 2, to_bits(self.op as i64));
        put_text_fields(&mut out, 3, &self.pk_columns);
        put_value_fields(&mut out, 4, &self.pk_values);
        put_text_fields(&mut out, 5, &self.columns);
        put_value_fields(&mut out, 6, &self.values);
        assert(out@ =~= row_bytes(self@));
        out
    }
}

impl DdlEvent {
    /// The event's stored form.
    pub fn encode_to_vec(&self) -> (r: Vec<u8>)
        ensures
            r@ == ddl_bytes(self@),
    {
        let mut out: Vec<u8> = Vec::new();
        put_text_fields(&mut out, 1, &self.statements);
        assert(out@ =~= ddl_bytes(self@));
        out
    }
}

impl Transaction {
    /// The transaction's stored form.
    pub fn encode_to_vec(&self) -> (r: Vec<u8>)
        ensures
            r@ == tx_bytes(self@),
    {
        reveal(tx_bytes);
        let mut out: Vec<u8> = Vec::new();
        put_number_field(&mut out, 1, self.lsn);
        put_number_field(&mut out, 2, to_bits(self.commit_ts_ms));
        let ghost head = out@;
        let ghost rows = self@.rows.map_values(|r: Row| row_bytes(r));
        let ghost ddl = self@.ddl.map_values(|d: Seq<Seq<char>>| ddl_bytes(d));
        let mut i: usize = 0;
        assert(rows.take(0) =~= seq![]);
        assert(out@ =~= head + len_fields(3, rows.take(0)));
        while i < self.rows.len()
            invariant
                i <= self.rows.len(),
                rows == self@.rows.map_values(|r: Row| row_bytes(r)),
                out@ == head + len_fields(3, rows.take(i as int)),
            decreases self.rows.len() - i,
        {
            let bytes = self.rows[i].encode_to_vec();
            put_len_field(&mut out, 3, bytes.as_slice());
            proof {
                len_fields_push(3, rows.take(i as int), rows[i as int]);
                assert(rows.take(i as int).push(rows[i as int]) =~= rows.take(i + 1));
                assert(out@ =~= head + len_fields(3, rows.take(i + 1)));
            }
            i = i + 1;
        }
        assert(rows.take(i as int) =~= rows);
        let ghost head2 = out@;
        let mut j: usize = 0;
        assert(ddl.take(0) =~= seq![]);
        assert(out@ =~= head2 + len_fields(4, ddl.take(0)));
        while j < self.ddl.len()
            invariant
                j <= self.ddl.len(),
                ddl == self@.ddl.map_values(|d: Seq<Seq<char>>| ddl_bytes(d)),
                out@ == head2 + len_fields(4, ddl.take(j as int)),
            decreases self.ddl.len() - j,
        {
            let bytes = self.ddl[j].encode_to_vec();
            put_len_field(&mut out, 4, bytes.as_slice());
            proof {
                len_fields_push(4, ddl.take(j as int), ddl[j as int]);
                assert(ddl.take(j as int).push(ddl[j as int]) =~= ddl.take(j + 1));
                assert(out@ =~= head2 + len_fields(4, ddl.take(j + 1)));
            }
            j = j + 1;
        }
        assert(ddl.take(j as int) =~= ddl);
        assert(out@ =~= tx_bytes(self@));
        out
    }
}

// ---------------------------------------------------------------------------
// Reading
// ---------------------------------------------------------------------------

/// Bytes that are not the stored form of the message they were read as.
#[derive(Clone, Copy, Debug, PartialEq, Eq, Structural)]
pub struct DecodeError {}

fn read_text(buf: &[u8], field: &Field) -> (r: Option<String>)
    requires
        field matches Field::Len(from, to) ==> *from <= *to <= buf@.len(),
    ensures
        match field_text(field.within(buf@)) {
            Some(s) => r matches Some(x) && x@ == s,
            None => r is None,
        },
{
    match field {
        Field::Len(from, to) => utf8_text(vstd::slice::slice_subrange(buf, *from, *to)),
        _ => None,
    }
}

fn read_value(buf: &[u8], field: &Field, level: usize) -> (r: Option<Value>)
    requires
        level <= 2,
        field matches Field::Len(from, to) ==> *from <= *to <= buf@.len(),
    ensures
        match field_value(field.within(buf@), level as nat) {
            Some(v) => r matches Some(x) && x@ == v,
            None => r is None,
        },
{
    match field {
        Field::Len(from, to) => match Value::decode_at(
            vstd::slice::slice_subrange(buf, *from, *to),
            level,
        ) {
            Ok(v) => Some(v),
            Err(_) => None,
        },
        _ => None,
    }
}

/// Whether `buf`, a message within `level` others, is made of fields.
fn all_fields(buf: &[u8], level: usize) -> (r: bool)
    ensures
        r == (merge((), buf@, take_empty(), level as nat) is Some),
{
    let mut pos: usize = 0;
    assert(buf@.skip(0) =~= buf@);
    while pos < buf.len()
        invariant
            pos <= buf@.len(),
            merge((), buf@.skip(pos as int), take_empty(), level as nat) == merge(
                (),
                buf@,
                take_empty(),
                level as nat,
            ),
        decreases buf@.len() - pos,
    {
        match get_field(buf, pos, level) {
            None => {
                return false;
            },
            Some((_, _, next)) => {
                assert(buf@.skip(pos as int).skip(next - pos) =~= buf@.skip(next as int));
                pos = next;
            },
        }
    }
    true
}

impl Value {
    /// The value that `buf` is the stored form of.
    pub fn decode(buf: &[u8]) -> (r: Result<Value, DecodeError>)
        ensures
            match parse_value(buf@, 0) {
                Some(v) => r matches Ok(x) && x@ == v,
                None => r is Err,
            },
    {
        Value::decode_at(buf, 0)
    }

    #[verifier::rlimit(50)]
    fn decode_at(buf: &[u8], level: usize) -> (r: Result<Value, DecodeError>)
        requires
            level <= 2,
        ensures
            match parse_value(buf@, level as nat) {
                Some(v) => r matches Ok(x) && x@ == v,
                None => r is Err,
            },
    {
        let mut acc: Value = Value { value: None };
        let mut pos: usize = 0;
        assert(buf@.skip(0) =~= buf@);
        while pos < buf.len()
            invariant
                pos <= buf@.len(),
                level <= 2,
                merge(acc@, buf@.skip(pos as int), take_value(level as nat), level as nat)
                    == parse_value(buf@, level as nat),
            decreases buf@.len() - pos,
        {
            let (tag, field, next) = match get_field(buf, pos, level) {
                None => {
                    return Err(DecodeError {  });
                },
                Some((tag, field, next)) => (tag, field, next),
            };
            assert(buf@.skip(pos as int).skip(next - pos) =~= buf@.skip(next as int));
            if tag == 1 {
                match field {
                    Field::Len(from, to) => {
                        if !all_fields(vstd::slice::slice_subrange(buf, from, to), level + 1) {
                            return Err(DecodeError {  });
                        }
                        acc = Value { value: Some(value::Value::Null(Empty {  })) };
                    },
                    _ => {
                        return Err(DecodeError {  });
                    },
                }
            } else if tag == 2 {
                match field {
                    Field::Varint(v) => {
                        acc = Value { value: Some(value::Value::Integer(from_zigzag(v))) };
                    },
                    _ => {
                        return Err(DecodeError {  });
                    },
                }
            } else if tag == 3 {
                match field {
                    Field::Fixed64(bits) => {
                        acc = Value { value: Some(value::Value::Float(bits)) };
                    },
                    _ => {
                        return Err(DecodeError {  });
                    },
                }
            } else if tag == 4 {
                match read_text(buf, &field) {
                    Some(s) => {
                        acc = Value { value: Some(value::Value::Text(s)) };
                    },
                    None => {
                        return Err(DecodeError {  });
                    },
                }
            } else if tag == 5 {
                match field {
                    Field::Len(from, to) => {
                        let bytes = vstd::slice::slice_to_vec(
                            vstd::slice::slice_subrange(buf, from, to),
                        );
                        acc = Value { value: Some(value::Value::Blob(bytes)) };
                    },
                    _ => {
                        return Err(DecodeError {  });
                    },
                }
            } else if tag == 6 {
                match field {
                    Field::Len(from, to) => {
                        let bytes = vstd::slice::slice_to_vec(
                            vstd::slice::slice_subrange(buf, from, to),
                        );
                        acc = Value { value: Some(value::Value::RawText(bytes)) };
                    },
                    _ => {
                        return Err(DecodeError {  });
                    },
                }
            }
            pos = next;
        }
        Ok(acc)
    }
}

impl RowEvent {
    /// The event that `buf` is the stored form of.
    pub fn decode(buf: &[u8]) -> (r: Result<RowEvent, DecodeError>)
        ensures
            match parse_row(buf@, 0) {
                Some(v) => r matches Ok(x) && x@ == v,
                None => r is Err,
            },
    {
        RowEvent::decode_at(buf, 0)
    }

    #[verifier::rlimit(50)]
    fn decode_at(buf: &[u8], level: usize) -> (r: Result<RowEvent, DecodeError>)
        requires
            level <= 1,
        ensures
            match parse_row(buf@, level as nat) {
                Some(v) => r matches Ok(x) && x@ == v,
                None => r is Err,
            },
    {
        let mut acc: RowEvent = RowEvent {
            table: String::new(),
            op: 0,
            pk_columns: Vec::new(),
            pk_values: Vec::new(),
            columns: Vec::new(),
            values: Vec::new(),
        };
        let mut pos: usize = 0;
        assert(buf@.skip(0) =~= buf@);
        assert(acc@ =~= empty_row());
        while pos < buf.len()
            invariant
                pos <= buf@.len(),
                level <= 1,
                merge(acc@, buf@.skip(pos as int), take_row(level as nat), level as nat)
                    == parse_row(buf@, level as nat),
            decreases buf@.len() - pos,
        {
            let (tag, field, next) = match get_field(buf, pos, level) {
                None => {
                    return Err(DecodeError {  });
                },
                Some((tag, field, next)) => (tag, field, next),
            };
            assert(buf@.skip(pos as int).skip(next - pos) =~= buf@.skip(next as int));
            if tag == 2 {
                match field {
                    Field::Varint(v) => {
                        acc.op = low_i32(v);
                    },
                    _ => {
                        return Err(DecodeError {  });
                    },
                }
            } else if tag == 1 || tag == 3 || tag == 5 {
                match read_text(buf, &field) {
                    Some(s) => {
                        if tag == 1 {
                            acc.table = s;
                        } else if tag == 3 {
                            acc.pk_columns.push(s);
                        } else {
                            acc.columns.push(s);
                        }
                    },
                    None => {
                        return Err(DecodeError {  });
                    },
                }
            } else if tag == 4 || tag == 6 {
                match read_value(buf, &field, level + 1) {
                    Some(v) => {
                        if tag == 4 {
                            acc.pk_values.push(v);
                        } else {
                            acc.values.push(v);
                        }
                    },
                    None => {
                        return Err(DecodeError {  });
                    },
                }
            }
            pos = next;
        }
        Ok(acc)
    }
}

impl DdlEvent {
    /// The event that `buf` is the stored form of.
    pub fn decode(buf: &[u8]) -> (r: Result<DdlEvent, DecodeError>)
        ensures
            match parse_ddl(buf@, 0) {
                Some(v) => r matches Ok(x) && x@ == v,
                None => r is Err,
            },
    {
        DdlEvent::decode_at(buf, 0)
    }

    fn decode_at(buf: &[u8], level: usize) -> (r: Result<DdlEvent, DecodeError>)
        requires
            level <= 1,
        ensures
            match parse_ddl(buf@, level as nat) {
                Some(v) => r matches Ok(x) && x@ == v,
                None => r is Err,
            },
    {
        let mut acc: DdlEvent = DdlEvent { statements: Vec::new() };
        let mut pos: usize = 0;
        assert(buf@.skip(0) =~= buf@);
        assert(acc@ =~= seq![]);
        while pos < buf.len()
            invariant
                pos <= buf@.len(),
                merge(acc@, buf@.skip(pos as int), take_ddl(), level as nat) == parse_ddl(
                    buf@,
                    level as nat,
                ),
            decreases buf@.len() - pos,
        {
            let (tag, field, next) = match get_field(buf, pos, level) {
                None => {
                    return Err(DecodeError {  });
                },
                Some((tag, field, next)) => (tag, field, next),
            };
            assert(buf@.skip(pos as int).skip(next - pos) =~= buf@.skip(next as int));
            if tag == 1 {
                match read_text(buf, &field) {
                    Some(s) => {
                        acc.statements.push(s);
                    },
                    None => {
                        return Err(DecodeError {  });
                    },
                }
            }
            pos = next;
        }
        Ok(acc)
    }
}

impl Transaction {
    /// The transaction that `buf` is the stored form of.
    pub fn decode(buf: &[u8]) -> (r: Result<Transaction, DecodeError>)
        ensures
            match parse_tx(buf@) {
                Some(v) => r matches Ok(x) && x@ == v,
                None => r is Err,
            },
    {
        reveal(parse_tx);
        let mut acc: Transaction = Transaction {
            lsn: 0,
            commit_ts_ms: 0,
            rows: Vec::new(),
            ddl: Vec::new(),
        };
        let mut pos: usize = 0;
        assert(buf@.skip(0) =~= buf@);
        assert(acc@ =~= empty_tx());
        while pos < buf.len()
            invariant
                pos <= buf@.len(),
                merge(acc@, buf@.skip(pos as int), take_tx(), 0) == parse_tx(buf@),
            decreases buf@.len() - pos,
        {
            let (tag, field, next) = match get_field(buf, pos, 0) {
                None => {
                    return Err(DecodeError {  });
                },
                Some((tag, field, next)) => (tag, field, next),
            };
            assert(buf@.skip(pos as int).skip(next - pos) =~= buf@.skip(next as int));
            if tag == 1 || tag == 2 {
                match field {
                    Field::Varint(v) => {
                        if tag == 1 {
                            acc.lsn = v;
                        } else {
                            acc.commit_ts_ms = from_bits(v);
                        }
                    },
                    _ => {
                        return Err(DecodeError {  });
                    },
                }
            } else if tag == 3 || tag == 4 {
                match field {
                    Field::Len(from, to) => {
                        let inner = vstd::slice::slice_subrange(buf, from, to);
                        if tag == 3 {
                            match RowEvent::decode_at(inner, 1) {
                                Ok(row) => {
                                    acc.rows.push(row);
                                },
                                Err(e) => {
                                    return Err(e);
                                },
                            }
                        } else {
                            match DdlEvent::decode_at(inner, 1) {
                                Ok(ddl) => {
                                    acc.ddl.push(ddl);
                                },
                                Err(e) => {
                                    return Err(e);
                                },
                            }
                        }
                    },
                    _ => {
                        return Err(DecodeError {  });
                    },
                }
            }
            pos = next;
        }
        Ok(acc)
    }
}

// ---------------------------------------------------------------------------
// What is written reads back
// ---------------------------------------------------------------------------

proof fn merge_first<A>(
    acc: A,
    tag: nat,
    field: FieldView,
    first: Seq<u8>,
    rest: Seq<u8>,
    take: spec_fn(A, nat, FieldView) -> Option<A>,
    level: nat,
)
    requires
        first.len() >= 1,
        parse_field(first + rest, level) == Some((tag, field, first.len())),
    ensures
        merge(acc, first + rest, take, level) == match take(acc, tag, field) {
            Some(next) => merge(next, rest, take, level),
            None => None,
        },
{
    assert((first + rest).skip(first.len() as int) =~= rest);
}

/// Repeated fields are taken one by one: `after(i)` is what has been gathered
/// once `i` of them are taken.
proof fn merge_repeated<A>(
    tag: nat,
    payloads: Seq<Seq<u8>>,
    rest: Seq<u8>,
    take: spec_fn(A, nat, FieldView) -> Option<A>,
    after: spec_fn(int) -> A,
    level: nat,
)
    requires
        is_tag(tag),
        forall|i: int|
            0 <= i < payloads.len() ==> (#[trigger] payloads[i]).len() <= u64::MAX && take(
                after(i),
                tag,
                FieldView::Len(payloads[i]),
            ) == Some(after(i + 1)),
    ensures
        merge(after(0), len_fields(tag, payloads) + rest, take, level) == merge(
            after(payloads.len() as int),
            rest,
            take,
            level,
        ),
    decreases payloads.len(),
{
    if payloads.len() == 0 {
        assert(len_fields(tag, payloads) + rest =~= rest);
    } else {
        let n = payloads.len() - 1;
        let last = len_field(tag, payloads[n]);
        let inner = payloads.drop_last();
        assert forall|i: int| 0 <= i < inner.len() implies (#[trigger] inner[i]).len() <= u64::MAX
            && take(after(i), tag, FieldView::Len(inner[i])) == Some(after(i + 1)) by {
            assert(inner[i] == payloads[i]);
        }
        merge_repeated(tag, inner, last + rest, take, after, level);
        assert(len_fields(tag, payloads) + rest =~= len_fields(tag, inner) + (last + rest));
        len_field_round_trip(tag, payloads[n], rest, level);
        merge_first(after(n), tag, FieldView::Len(payloads[n]), last, rest, take, level);
    }
}

/// Each payload is shorter than the fields that carry them all.
proof fn len_fields_bound(tag: nat, payloads: Seq<Seq<u8>>)
    requires
        is_tag(tag),
    ensures
        forall|i: int|
            0 <= i < payloads.len() ==> (#[trigger] payloads[i]).len() <= len_fields(
                tag,
                payloads,
            ).len(),
    decreases payloads.len(),
{
    if payloads.len() > 0 {
        let inner = payloads.drop_last();
        len_fields_bound(tag, inner);
        assert forall|i: int| 0 <= i < payloads.len() implies (#[trigger] payloads[i]).len()
            <= len_fields(tag, payloads).len() by {
            if i < inner.len() {
                assert(inner[i] == payloads[i]);
            }
        }
    }
}

/// A value reads back from its stored form.
pub proof fn value_round_trip(v: Option<Scalar>, level: nat)
    requires
        value_bytes(v).len() <= u64::MAX,
    ensures
        parse_value(value_bytes(v), level) == Some(v),
{
    broadcast use {vstd::utf8::encode_utf8_valid_utf8, vstd::utf8::encode_utf8_decode_utf8};

    let rest = Seq::<u8>::empty();
    let bytes = value_bytes(v);
    assert(bytes + rest =~= bytes);
    let none: Option<Scalar> = None;
    match v {
        None => {},
        Some(Scalar::Null) => {
            len_field_round_trip(1, seq![], rest, level);
            assert(merge((), Seq::<u8>::empty(), take_empty(), level + 1) == Some(()));
            merge_first(none, 1, FieldView::Len(seq![]), bytes, rest, take_value(level), level);
        },
        Some(Scalar::Integer(i)) => {
            varint_field_round_trip(2, zigzag(i), rest, level);
            merge_first(none, 2, FieldView::Varint(zigzag(i)), bytes, rest, take_value(level), level);
        },
        Some(Scalar::Float(bits)) => {
            fixed64_field_round_trip(3, bits, rest, level);
            merge_first(none, 3, FieldView::Fixed64(bits), bytes, rest, take_value(level), level);
        },
        Some(Scalar::Text(s)) => {
            len_field_round_trip(4, encode_utf8(s), rest, level);
            merge_first(none, 4, FieldView::Len(encode_utf8(s)), bytes, rest, take_value(level), level);
        },
        Some(Scalar::Blob(b)) => {
            len_field_round_trip(5, b, rest, level);
            merge_first(none, 5, FieldView::Len(b), bytes, rest, take_value(level), level);
        },
        Some(Scalar::RawText(b)) => {
            len_field_round_trip(6, b, rest, level);
            merge_first(none, 6, FieldView::Len(b), bytes, rest, take_value(level), level);
        },
    }
}

proof fn row_takes_pk_columns(acc: Row, items: Seq<Seq<char>>, rest: Seq<u8>, level: nat)
    requires
        text_fields(3, items).len() <= u64::MAX,
    ensures
        merge(acc, text_fields(3, items) + rest, take_row(level), level) == merge(
            Row { pk_columns: acc.pk_columns + items, ..acc },
            rest,
            take_row(level),
            level,
        ),
{
    broadcast use {vstd::utf8::encode_utf8_valid_utf8, vstd::utf8::encode_utf8_decode_utf8};

    let payloads = items.map_values(|s: Seq<char>| encode_utf8(s));
    len_fields_bound(3, payloads);
    let after = |i: int| Row { pk_columns: acc.pk_columns + items.take(i), ..acc };
    assert forall|i: int| 0 <= i < payloads.len() implies take_row(level)(
        after(i),
        3,
        FieldView::Len(#[trigger] payloads[i]),
    ) == Some(after(i + 1)) by {
        assert((acc.pk_columns + items.take(i)).push(items[i]) =~= acc.pk_columns + items.take(i + 1));
    }
    assert(after(0) =~= acc);
    merge_repeated(3, payloads, rest, take_row(level), after, level);
    assert(items.take(payloads.len() as int) =~= items);
}

proof fn row_takes_pk_values(acc: Row, items: Seq<Option<Scalar>>, rest: Seq<u8>, level: nat)
    requires
        value_fields(4, items).len() <= u64::MAX,
    ensures
        merge(acc, value_fields(4, items) + rest, take_row(level), level) == merge(
            Row { pk_values: acc.pk_values + items, ..acc },
            rest,
            take_row(level),
            level,
        ),
{
    broadcast use {vstd::utf8::encode_utf8_valid_utf8, vstd::utf8::encode_utf8_decode_utf8};

    let payloads = items.map_values(|v: Option<Scalar>| value_bytes(v));
    len_fields_bound(4, payloads);
    let after = |i: int| Row { pk_values: acc.pk_values + items.take(i), ..acc };
    assert forall|i: int| 0 <= i < payloads.len() implies take_row(level)(
        after(i),
        4,
        FieldView::Len(#[trigger] payloads[i]),
    ) == Some(after(i + 1)) by {
        assert(payloads[i] == value_bytes(items[i]));
        value_round_trip(items[i], level + 1);
        assert((acc.pk_values + items.take(i)).push(items[i]) =~= acc.pk_values + items.take(i + 1));
    }
    assert(after(0) =~= acc);
    merge_repeated(4, payloads, rest, take_row(level), after, level);
    assert(items.take(payloads.len() as int) =~= items);
}

proof fn row_takes_columns(acc: Row, items: Seq<Seq<char>>, rest: Seq<u8>, level: nat)
    requires
        text_fields(5, items).len() <= u64::MAX,
    ensures
        merge(acc, text_fields(5, items) + rest, take_row(level), level) == merge(
            Row { columns: acc.columns + items, ..acc },
            rest,
            take_row(level),
            level,
        ),
{
    broadcast use {vstd::utf8::encode_utf8_valid_utf8, vstd::utf8::encode_utf8_decode_utf8};

    let payloads = items.map_values(|s: Seq<char>| encode_utf8(s));
    len_fields_bound(5, payloads);
    let after = |i: int| Row { columns: acc.columns + items.take(i), ..acc };
    assert forall|i: int| 0 <= i < payloads.len() implies take_row(level)(
        after(i),
        5,
        FieldView::Len(#[trigger] payloads[i]),
    ) == Some(after(i + 1)) by {
        assert((acc.columns + items.take(i)).push(items[i]) =~= acc.columns + items.take(i + 1));
    }
    assert(after(0) =~= acc);
    merge_repeated(5, payloads, rest, take_row(level), after, level);
    assert(items.take(payloads.len() as int) =~= items);
}

proof fn row_takes_values(acc: Row, items: Seq<Option<Scalar>>, rest: Seq<u8>, level: nat)
    requires
        value_fields(6, items).len() <= u64::MAX,
    ensures
        merge(acc, value_fields(6, items) + rest, take_row(level), level) == merge(
            Row { values: acc.values + items, ..acc },
            rest,
            take_row(level),
            level,
        ),
{
    broadcast use {vstd::utf8::encode_utf8_valid_utf8, vstd::utf8::encode_utf8_decode_utf8};

    let payloads = items.map_values(|v: Option<Scalar>| value_bytes(v));
    len_fields_bound(6, payloads);
    let after = |i: int| Row { values: acc.values + items.take(i), ..acc };
    assert forall|i: int| 0 <= i < payloads.len() implies take_row(level)(
        after(i),
        6,
        FieldView::Len(#[trigger] payloads[i]),
    ) == Some(after(i + 1)) by {
        assert(payloads[i] == value_bytes(items[i]));
        value_round_trip(items[i], level + 1);
        assert((acc.values + items.take(i)).push(items[i]) =~= acc.values + items.take(i + 1));
    }
    assert(after(0) =~= acc);
    merge_repeated(6, payloads, rest, take_row(level), after, level);
    assert(items.take(payloads.len() as int) =~= items);
}

proof fn row_takes_table(table: Seq<char>, rest: Seq<u8>, level: nat)
    requires
        text_field(1, table).len() <= u64::MAX,
    ensures
        merge(empty_row(), text_field(1, table) + rest, take_row(level), level) == merge(
            Row { table, ..empty_row() },
            rest,
            take_row(level),
            level,
        ),
{
    broadcast use {vstd::utf8::encode_utf8_valid_utf8, vstd::utf8::encode_utf8_decode_utf8};

    if table.len() > 0 {
        let field = FieldView::Len(encode_utf8(table));
        len_field_round_trip(1, encode_utf8(table), rest, level);
        merge_first(empty_row(), 1, field, text_field(1, table), rest, take_row(level), level);
    } else {
        assert(text_field(1, table) + rest =~= rest);
        assert(table =~= seq![]);
    }
}

proof fn row_takes_op(acc: Row, op: i32, rest: Seq<u8>, level: nat)
    requires
        acc.op == 0,
    ensures
        merge(acc, number_field(2, i64_bits(op as i64)) + rest, take_row(level), level) == merge(
            Row { op, ..acc },
            rest,
            take_row(level),
            level,
        ),
{
    let bits = i64_bits(op as i64);
    if bits != 0 {
        varint_field_round_trip(2, bits, rest, level);
        merge_first(acc, 2, FieldView::Varint(bits), number_field(2, bits), rest, take_row(level), level);
    } else {
        assert(number_field(2, bits) + rest =~= rest);
    }
}

/// A row event reads back from its stored form.
#[verifier::rlimit(50)]
pub proof fn row_round_trip(r: Row, level: nat)
    requires
        row_bytes(r).len() <= u64::MAX,
    ensures
        parse_row(row_bytes(r), level) == Some(r),
{
    let none = Seq::<u8>::empty();
    let from6 = value_fields(6, r.values) + none;
    let from5 = text_fields(5, r.columns) + from6;
    let from4 = value_fields(4, r.pk_values) + from5;
    let from3 = text_fields(3, r.pk_columns) + from4;
    let from2 = number_field(2, i64_bits(r.op as i64)) + from3;
    assert(text_field(1, r.table) + from2 =~= row_bytes(r));
    let row1 = Row { table: r.table, ..empty_row() };
    let row2 = Row { op: r.op, ..row1 };
    let row3 = Row { pk_columns: r.pk_columns, ..row2 };
    let row4 = Row { pk_values: r.pk_values, ..row3 };
    let row5 = Row { columns: r.columns, ..row4 };
    row_takes_table(r.table, from2, level);
    row_takes_op(row1, r.op, from3, level);
    row_takes_pk_columns(row2, r.pk_columns, from4, level);
    assert(row2.pk_columns + r.pk_columns =~= r.pk_columns);
    row_takes_pk_values(row3, r.pk_values, from5, level);
    assert(row3.pk_values + r.pk_values =~= r.pk_values);
    row_takes_columns(row4, r.columns, from6, level);
    assert(row4.columns + r.columns =~= r.columns);
    row_takes_values(row5, r.values, none, level);
    assert(row5.values + r.values =~= r.values);
}

/// A schema change reads back from its stored form.
pub proof fn ddl_round_trip(d: Seq<Seq<char>>, level: nat)
    requires
        ddl_bytes(d).len() <= u64::MAX,
    ensures
        parse_ddl(ddl_bytes(d), level) == Some(d),
{
    broadcast use {vstd::utf8::encode_utf8_valid_utf8, vstd::utf8::encode_utf8_decode_utf8};

    let take = take_ddl();
    let payloads = d.map_values(|s: Seq<char>| encode_utf8(s));
    len_fields_bound(1, payloads);
    let none = Seq::<u8>::empty();
    assert(ddl_bytes(d) =~= len_fields(1, payloads) + none);
    let after = |i: int| d.take(i);
    assert forall|i: int| 0 <= i < payloads.len() implies take(
        after(i),
        1,
        FieldView::Len(#[trigger] payloads[i]),
    ) == Some(after(i + 1)) by {
        assert(d.take(i).push(d[i]) =~= d.take(i + 1));
    }
    assert(after(0) =~= seq![]);
    merge_repeated(1, payloads, none, take, after, level);
    assert(after(payloads.len() as int) =~= d);
}

proof fn tx_takes_rows(acc: Tx, items: Seq<Row>, rest: Seq<u8>)
    requires
        len_fields(3, items.map_values(|r: Row| row_bytes(r))).len() <= u64::MAX,
    ensures
        merge(acc, len_fields(3, items.map_values(|r: Row| row_bytes(r))) + rest, take_tx(), 0)
            == merge(Tx { rows: acc.rows + items, ..acc }, rest, take_tx(), 0),
{
    let payloads = items.map_values(|r: Row| row_bytes(r));
    len_fields_bound(3, payloads);
    let after = |i: int| Tx { rows: acc.rows + items.take(i), ..acc };
    assert forall|i: int| 0 <= i < payloads.len() implies take_tx()(
        after(i),
        3,
        FieldView::Len(#[trigger] payloads[i]),
    ) == Some(after(i + 1)) by {
        assert(payloads[i] == row_bytes(items[i]));
        row_round_trip(items[i], 1);
        assert((acc.rows + items.take(i)).push(items[i]) =~= acc.rows + items.take(i + 1));
    }
    assert(after(0) =~= acc);
    merge_repeated(3, payloads, rest, take_tx(), after, 0);
    assert(items.take(payloads.len() as int) =~= items);
}

proof fn tx_takes_ddl(acc: Tx, items: Seq<Seq<Seq<char>>>, rest: Seq<u8>)
    requires
        len_fields(4, items.map_values(|d: Seq<Seq<char>>| ddl_bytes(d))).len() <= u64::MAX,
    ensures
        merge(acc, len_fields(4, items.map_values(|d: Seq<Seq<char>>| ddl_bytes(d))) + rest, take_tx(), 0)
            == merge(Tx { ddl: acc.ddl + items, ..acc }, rest, take_tx(), 0),
{
    let payloads = items.map_values(|d: Seq<Seq<char>>| ddl_bytes(d));
    len_fields_bound(4, payloads);
    let after = |i: int| Tx { ddl: acc.ddl + items.take(i), ..acc };
    assert forall|i: int| 0 <= i < payloads.len() implies take_tx()(
        after(i),
        4,
        FieldView::Len(#[trigger] payloads[i]),
    ) == Some(after(i + 1)) by {
        assert(payloads[i] == ddl_bytes(items[i]));
        ddl_round_trip(items[i], 1);
        assert((acc.ddl + items.take(i)).push(items[i]) =~= acc.ddl + items.take(i + 1));
    }
    assert(after(0) =~= acc);
    merge_repeated(4, payloads, rest, take_tx(), after, 0);
    assert(items.take(payloads.len() as int) =~= items);
}

proof fn tx_takes_lsn(lsn: u64, rest: Seq<u8>)
    ensures
        merge(empty_tx(), number_field(1, lsn) + rest, take_tx(), 0) == merge(
            Tx { lsn, ..empty_tx() },
            rest,
            take_tx(), 0,
        ),
{
    if lsn != 0 {
        varint_field_round_trip(1, lsn, rest, 0);
        merge_first(empty_tx(), 1, FieldView::Varint(lsn), number_field(1, lsn), rest, take_tx(), 0);
    } else {
        assert(number_field(1, lsn) + rest =~= rest);
    }
}

proof fn tx_takes_time(acc: Tx, ts: i64, rest: Seq<u8>)
    requires
        acc.commit_ts_ms == 0,
    ensures
        merge(acc, number_field(2, i64_bits(ts)) + rest, take_tx(), 0) == merge(
            Tx { commit_ts_ms: ts, ..acc },
            rest,
            take_tx(), 0,
        ),
{
    let bits = i64_bits(ts);
    if bits != 0 {
        varint_field_round_trip(2, bits, rest, 0);
        merge_first(acc, 2, FieldView::Varint(bits), number_field(2, bits), rest, take_tx(), 0);
    } else {
        assert(number_field(2, bits) + rest =~= rest);
    }
}

/// A transaction reads back from its stored form.
pub proof fn tx_round_trip(tx: Tx)
    requires
        tx_bytes(tx).len() <= u64::MAX,
    ensures
        parse_tx(tx_bytes(tx)) == Some(tx),
{
    reveal(tx_bytes);
    reveal(parse_tx);
    let none = Seq::<u8>::empty();
    let from4 = len_fields(4, tx.ddl.map_values(|d: Seq<Seq<char>>| ddl_bytes(d))) + none;
    let from3 = len_fields(3, tx.rows.map_values(|r: Row| row_bytes(r))) + from4;
    let from2 = number_field(2, i64_bits(tx.commit_ts_ms)) + from3;
    assert(number_field(1, tx.lsn) + from2 =~= tx_bytes(tx));
    let tx1 = Tx { lsn: tx.lsn, ..empty_tx() };
    let tx2 = Tx { commit_ts_ms: tx.commit_ts_ms, ..tx1 };
    let tx3 = Tx { rows: tx.rows, ..tx2 };
    tx_takes_lsn(tx.lsn, from2);
    tx_takes_time(tx1, tx.commit_ts_ms, from3);
    tx_takes_rows(tx2, tx.rows, from4);
    assert(tx2.rows + tx.rows =~= tx.rows);
    tx_takes_ddl(tx3, tx.ddl, none);
    assert(tx3.ddl + tx.ddl =~= tx.ddl);
}

} // verus!
