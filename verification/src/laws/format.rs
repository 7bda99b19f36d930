//! The stored form of records, byte by byte: what other programs read.

use crate::binlog::codec::{
    ddl_bytes, i64_bits, number_field, row_bytes, take_ddl, take_row, take_tx, take_value,
    text_field, text_fields, tx_bytes, value_bytes, value_fields, zigzag,
};
use crate::binlog::segment::record;
use crate::binlog::value::Scalar;
use crate::binlog::{Op, Row, Tx};
use crate::hrana::blob::unpadded;
use crate::wire::{len_field, len_fields, to_le, varint, FieldView};
use vstd::prelude::*;
use vstd::utf8::{decode_utf8, encode_utf8, valid_utf8};

verus! {

/// A number is stored in groups of seven bits, the lowest first, each but the
/// last with its high bit set.
pub proof fn numbers_are_stored_in_groups(v: nat)
    ensures
        v < 128 ==> varint(v) == seq![v as u8],
        v >= 128 ==> varint(v) == seq![(128 + v % 128) as u8] + varint(v / 128),
{
    if v < 128 {
        assert(varint(v) =~= seq![v as u8]);
    } else {
        assert(varint(v) =~= seq![(128 + v % 128) as u8] + varint(v / 128));
    }
}

/// A signed value is stored with its sign in the lowest bit.
pub proof fn signs_are_stored_lowest(i: i64)
    ensures
        i >= 0 ==> zigzag(i) == 2 * i,
        i < 0 ==> zigzag(i) == -2 * i - 1,
        i >= 0 ==> i64_bits(i) == i,
        i < 0 ==> i64_bits(i) == 0x1_0000_0000_0000_0000 + i,
{
}

/// Eight bytes are stored with the lowest first.
pub proof fn doubles_are_stored_lowest_first(bits: u64)
    ensures
        to_le(bits as nat, 8).len() == 8,
        to_le(bits as nat, 8)[0] as int == bits % 256,
        to_le(bits as nat, 8).skip(1) == to_le((bits / 256) as nat, 7),
{
    reveal_with_fuel(to_le, 9);
    assert(to_le(bits as nat, 8).skip(1) =~= to_le((bits / 256) as nat, 7));
}

proof fn small_key(tag: nat, wire_type: nat)
    requires
        1 <= tag <= 6,
        wire_type < 8,
    ensures
        varint(tag * 8 + wire_type) == seq![(tag * 8 + wire_type) as u8],
{
    numbers_are_stored_in_groups(tag * 8 + wire_type);
}

/// What is stored under a number is that number and the kind of what follows,
/// its length and its bytes, all of them.
pub proof fn fields_are_stored_whole(tag: nat, payload: Seq<u8>)
    requires
        1 <= tag <= 6,
    ensures
        len_field(tag, payload) == seq![(tag * 8 + 2) as u8] + varint(payload.len()) + payload,
{
    small_key(tag, 2);
}

/// The stored form of a value, by its kind: a null as an empty message, an
/// integer with its sign lowest, a double by its bits, texts and bytes whole.
pub proof fn values_are_stored_by_kind(v: Scalar)
    ensures
        value_bytes(None).len() == 0,
        match v {
            Scalar::Null => value_bytes(Some(v)) == seq![0x0au8, 0u8],
            Scalar::Integer(i) => value_bytes(Some(v)) == seq![0x10u8] + varint(zigzag(i) as nat),
            Scalar::Float(bits) => value_bytes(Some(v)) == seq![0x19u8] + to_le(bits as nat, 8),
            Scalar::Text(s) => value_bytes(Some(v)) == seq![0x22u8] + varint(encode_utf8(s).len())
                + encode_utf8(s),
            Scalar::Blob(b) => value_bytes(Some(v)) == seq![0x2au8] + varint(b.len()) + b,
            Scalar::RawText(b) => value_bytes(Some(v)) == seq![0x32u8] + varint(b.len()) + b,
        },
{
    small_key(1, 2);
    small_key(2, 0);
    small_key(3, 1);
    small_key(4, 2);
    small_key(5, 2);
    small_key(6, 2);
    numbers_are_stored_in_groups(0);
    if v is Null {
        assert(value_bytes(Some(v)) =~= seq![0x0au8, 0u8]);
    }
}

/// Several items under a number are stored one after the other, in order.
pub proof fn items_are_stored_in_order(tag: nat, payloads: Seq<Seq<u8>>, last: Seq<u8>)
    ensures
        len_fields(tag, Seq::<Seq<u8>>::empty()).len() == 0,
        len_fields(tag, payloads.push(last)) == len_fields(tag, payloads) + len_field(tag, last),
{
    assert(payloads.push(last).drop_last() =~= payloads);
}

/// The stored form of a row change: its table, its kind by number, the columns
/// and values of its key, and the columns and values of its image.
pub proof fn rows_are_stored_by_field(r: Row, table: Seq<char>, n: u64)
    ensures
        row_bytes(r) == text_field(1, r.table) + number_field(2, i64_bits(r.op as i64))
            + text_fields(3, r.pk_columns) + value_fields(4, r.pk_values) + text_fields(
            5,
            r.columns,
        ) + value_fields(6, r.values),
        Op::Insert.number() == 0,
        Op::Update.number() == 1,
        Op::Delete.number() == 2,
        table.len() > 0 ==> text_field(1, table) == seq![0x0au8] + varint(encode_utf8(table).len())
            + encode_utf8(table),
        table.len() == 0 ==> text_field(1, table).len() == 0,
        n > 0 ==> number_field(2, n) == seq![0x10u8] + varint(n as nat),
        n == 0 ==> number_field(2, n).len() == 0,
{
    small_key(1, 2);
    small_key(2, 0);
}

/// Texts and values under a number are stored each as a field of it.
pub proof fn lists_are_stored_item_by_item(
    tag: nat,
    texts: Seq<Seq<char>>,
    text: Seq<char>,
    values: Seq<Option<Scalar>>,
    value: Option<Scalar>,
)
    ensures
        text_fields(tag, texts.push(text)) == text_fields(tag, texts) + len_field(
            tag,
            encode_utf8(text),
        ),
        value_fields(tag, values.push(value)) == value_fields(tag, values) + len_field(
            tag,
            value_bytes(value),
        ),
        text_fields(tag, Seq::<Seq<char>>::empty()).len() == 0,
        value_fields(tag, Seq::<Option<Scalar>>::empty()).len() == 0,
{
    let encoded = texts.map_values(|s: Seq<char>| encode_utf8(s));
    let stored = values.map_values(|v: Option<Scalar>| value_bytes(v));
    items_are_stored_in_order(tag, encoded, encode_utf8(text));
    items_are_stored_in_order(tag, stored, value_bytes(value));
    assert(texts.push(text).map_values(|s: Seq<char>| encode_utf8(s)) =~= encoded.push(
        encode_utf8(text),
    ));
    assert(values.push(value).map_values(|v: Option<Scalar>| value_bytes(v)) =~= stored.push(
        value_bytes(value),
    ));
    assert(Seq::<Seq<char>>::empty().map_values(|s: Seq<char>| encode_utf8(s)) =~= Seq::<
        Seq<u8>,
    >::empty());
    assert(Seq::<Option<Scalar>>::empty().map_values(|v: Option<Scalar>| value_bytes(v)) =~= Seq::<
        Seq<u8>,
    >::empty());
}

/// The stored form of a transaction: its LSN, its time, every row change and
/// every schema change, in order; and the record of it is its length before it.
pub proof fn transactions_are_stored_whole(tx: Tx)
    ensures
        tx_bytes(tx) == number_field(1, tx.lsn) + number_field(2, i64_bits(tx.commit_ts_ms))
            + len_fields(3, tx.rows.map_values(|r: Row| row_bytes(r))) + len_fields(
            4,
            tx.ddl.map_values(|d: Seq<Seq<char>>| text_fields(1, d)),
        ),
        record(tx) == varint(tx_bytes(tx).len()) + tx_bytes(tx),
{
    reveal(tx_bytes);
    assert(tx.ddl.map_values(|d: Seq<Seq<char>>| text_fields(1, d)) =~= tx.ddl.map_values(
        |d: Seq<Seq<char>>| ddl_bytes(d),
    ));
}

/// Padding behind a binary value's text does not matter, and nothing else of the
/// text is lost.
pub proof fn padding_does_not_matter(text: Seq<char>, n: nat)
    requires
        text.len() > 0 ==> text.last() != '=',
    ensures
        unpadded(text + Seq::new(n, |i: int| '=')) == text,
    decreases n,
{
    let s = text + Seq::new(n, |i: int| '=');
    if n == 0 {
        assert(s =~= text);
    } else {
        padding_does_not_matter(text, (n - 1) as nat);
        assert(s.last() == '=');
        assert(s.drop_last() =~= text + Seq::new((n - 1) as nat, |i: int| '='));
    }
}

/// Fields of numbers that are not known are passed over, whatever they carry: a
/// record of a later version is read as far as it is understood.
pub proof fn unknown_fields_are_passed_over(
    tx: Tx,
    row: Row,
    value: Option<Scalar>,
    stmts: Seq<Seq<char>>,
    tag: nat,
    field: FieldView,
    level: nat,
)
    ensures
        tag == 0 || tag > 4 ==> take_tx()(tx, tag, field) == Some(tx),
        tag == 0 || tag > 6 ==> take_row(level)(row, tag, field) == Some(row),
        tag == 0 || tag > 6 ==> take_value(level)(value, tag, field) == Some(value),
        tag != 1 ==> take_ddl()(stmts, tag, field) == Some(stmts),
{
}

/// What a known field carries is taken, and one of another kind is refused.
pub proof fn known_fields_are_taken(tx: Tx, row: Row, value: Option<Scalar>, v: u64, b: Seq<u8>)
    ensures
        take_tx()(tx, 1, FieldView::Varint(v)) == Some(Tx { lsn: v, ..tx }),
        take_tx()(tx, 1, FieldView::Len(b)) is None,
        take_tx()(tx, 2, FieldView::Len(b)) is None,
        take_tx()(tx, 3, FieldView::Varint(v)) is None,
        take_tx()(tx, 4, FieldView::Varint(v)) is None,
        take_row(1)(row, 1, FieldView::Varint(v)) is None,
        valid_utf8(b) ==> take_row(1)(row, 1, FieldView::Len(b)) == Some(
            Row { table: decode_utf8(b), ..row },
        ),
        !valid_utf8(b) ==> take_row(1)(row, 1, FieldView::Len(b)) is None,
        take_value(2)(value, 3, FieldView::Fixed64(v)) == Some(Some(Scalar::Float(v))),
        take_value(2)(value, 3, FieldView::Varint(v)) is None,
        take_value(2)(value, 5, FieldView::Len(b)) == Some(Some(Scalar::Blob(b))),
        take_value(2)(value, 5, FieldView::Varint(v)) is None,
        !valid_utf8(b) ==> take_value(2)(value, 4, FieldView::Len(b)) is None,
        valid_utf8(b) ==> take_value(2)(value, 4, FieldView::Len(b)) == Some(
            Some(Scalar::Text(decode_utf8(b))),
        ),
{
}

} // verus!
