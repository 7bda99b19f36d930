//! Values: what is stored, sent or bound is what was given, for every kind of
//! value and whatever its size.

use crate::binlog::codec::{parse_value, value_bytes, value_round_trip};
use crate::binlog::value::Scalar;
use crate::capture::cell_scalar;
use crate::executor::{binds, cell_datum, Cell};
use crate::hrana::blob::{base64, base64_bytes};
use crate::hrana::proto::Datum;
use crate::http::{legacy_datum, shows, Json};
use crate::sql::{decimals, is_nan, literal_of, real_literal_of};
use crate::statement::{all_numeric, ends, has_own_literal, literal_reads_back, read_literal};
use crate::wire::lossy_text;
use vstd::prelude::*;
use vstd::utf8::{decode_utf8, encode_utf8, valid_utf8};

verus! {

/// Whether a value of the binlog is the one that is stored: of the same kind,
/// with the same number, bits or bytes.
pub open spec fn is_stored(v: Option<Scalar>, cell: Cell) -> bool {
    match (cell, v) {
        (Cell::Null, Some(Scalar::Null)) => true,
        (Cell::Integer(i), Some(Scalar::Integer(j))) => i == j,
        (Cell::Real(a), Some(Scalar::Float(b))) => a == b,
        (Cell::Text(bytes), Some(Scalar::Text(s))) => encode_utf8(s) == bytes@,
        (Cell::Text(bytes), Some(Scalar::RawText(b))) => b == bytes@ && !valid_utf8(b),
        (Cell::Blob(bytes), Some(Scalar::Blob(b))) => b == bytes@,
        _ => false,
    }
}

/// What SQL reads numbers as: past the range as an infinity, and whether a zero
/// fraction is written or not does not matter.
pub open spec fn reads_numbers(doubles: spec_fn(Seq<char>) -> u64) -> bool {
    &&& doubles("9e999"@) == 0x7ff0_0000_0000_0000
    &&& doubles("-9e999"@) == 0xfff0_0000_0000_0000
    &&& doubles("-0.0"@) == 0x8000_0000_0000_0000
    &&& forall|d: Seq<char>| doubles(#[trigger] (d + ".0"@)) == doubles(d)
}

/// Whether a stored double, if the value is one, is a number that has its
/// decimal form.
pub open spec fn has_decimal(
    cell: Cell,
    reals: Map<u64, Seq<char>>,
    doubles: spec_fn(Seq<char>) -> u64,
) -> bool {
    cell matches Cell::Real(bits) ==> {
        &&& !is_nan(bits)
        &&& reals.contains_key(bits)
        &&& has_own_literal(bits) || (reals[bits].len() > 0 && all_numeric(reals[bits]) && doubles(
            reals[bits],
        ) == bits)
    }
}

/// Capturing loses nothing of a stored value, and the binlog keeps it: what is
/// captured, written and read again is the value that is stored.
pub proof fn captured_value_is_the_stored_one(cell: Cell, level: nat)
    ensures
        is_stored(Some(cell_scalar(cell)), cell),
        value_bytes(Some(cell_scalar(cell))).len() <= u64::MAX ==> {
            let read = parse_value(value_bytes(Some(cell_scalar(cell))), level);
            read is Some && is_stored(read->Some_0, cell)
        },
{
    if let Cell::Text(bytes) = cell {
        if valid_utf8(bytes@) {
            vstd::utf8::decode_utf8_encode_utf8(bytes@);
        }
    }
    if value_bytes(Some(cell_scalar(cell))).len() <= u64::MAX {
        value_round_trip(Some(cell_scalar(cell)), level);
    }
}

/// A replica stores what the primary stores: the literal that is served for a
/// captured value, read as SQL reads it, is the value.
pub proof fn served_literal_is_the_stored_value(
    cell: Cell,
    reals: Map<u64, Seq<char>>,
    rest: Seq<char>,
    doubles: spec_fn(Seq<char>) -> u64,
)
    requires
        ends(rest),
        reads_numbers(doubles),
        has_decimal(cell, reals, doubles),
    ensures
        ({
            let read = read_literal(literal_of(Some(cell_scalar(cell)), reals) + rest, doubles);
            read matches Some((v, after)) && is_stored(v, cell) && after == rest
        }),
{
    captured_value_is_the_stored_one(cell, 0);
    if let Cell::Real(bits) = cell {
        real_literal_says(bits, reals, doubles);
    }
    literal_reads_back(Some(cell_scalar(cell)), reals, rest, doubles);
}

/// The literal of a double is read as the double, and of what is not a number
/// as NULL, which is what SQLite stores for it.
pub proof fn real_literal_says(
    bits: u64,
    reals: Map<u64, Seq<char>>,
    doubles: spec_fn(Seq<char>) -> u64,
)
    requires
        reads_numbers(doubles),
        is_nan(bits) || has_own_literal(bits) || doubles(reals[bits]) == bits,
    ensures
        is_nan(bits) ==> real_literal_of(bits, reals[bits]) == "NULL"@,
        !is_nan(bits) ==> doubles(real_literal_of(bits, reals[bits])) == bits,
{
}

/// Stored values that differ are captured as values that differ, and so are
/// those that are sent.
pub proof fn captured_values_differ(a: Cell, b: Cell)
    requires
        cell_scalar(a) == cell_scalar(b),
    ensures
        a is Null <==> b is Null,
        a matches Cell::Integer(i) ==> b == Cell::Integer(i),
        a matches Cell::Real(bits) ==> b == Cell::Real(bits),
        a matches Cell::Text(x) ==> (b matches Cell::Text(y) && x@ == y@),
        a matches Cell::Blob(x) ==> (b matches Cell::Blob(y) && x@ == y@),
{
    captured_value_is_the_stored_one(a, 0);
    captured_value_is_the_stored_one(b, 0);
}

/// What a client gets of a stored value is that value: a NULL as null, a
/// number as that number, bytes as these bytes, and a text that is UTF-8 as the
/// text that its bytes spell.
pub proof fn sent_value_is_the_stored_one(cell: Cell)
    ensures
        match (cell, cell_datum(cell)) {
            (Cell::Null, Datum::Null) => true,
            (Cell::Integer(i), Datum::Integer(j)) => i == j,
            (Cell::Real(a), Datum::Float(b)) => a == b,
            (Cell::Text(bytes), Datum::Text(s)) => s == lossy_text(bytes@),
            (Cell::Blob(bytes), Datum::Blob(b)) => b == bytes@,
            _ => false,
        },
{
}

/// A value that a client gives is stored as that value, and a client that reads
/// it gets it back. A text is stored as its UTF-8.
pub proof fn bound_value_is_read_back(cell: Cell, v: Datum)
    requires
        binds(cell, v),
        v !is Unset,
        cell matches Cell::Text(b) ==> (valid_utf8(b@) ==> lossy_text(b@) == decode_utf8(b@)),
    ensures
        cell_datum(cell) == v,
        v is Null <==> cell is Null,
        v is Integer <==> cell is Integer,
        v is Float <==> cell is Real,
        v is Text <==> cell is Text,
        v is Blob <==> cell is Blob,
{
    if let Datum::Text(s) = v {
        vstd::utf8::encode_utf8_valid_utf8(s);
        vstd::utf8::encode_utf8_decode_utf8(s);
    }
}

/// A value that a client gives is captured as the value it gave.
pub proof fn bound_value_is_captured(cell: Cell, v: Datum)
    requires
        binds(cell, v),
    ensures
        match v {
            Datum::Unset => cell_scalar(cell) == Scalar::Null,
            Datum::Null => cell_scalar(cell) == Scalar::Null,
            Datum::Integer(i) => cell_scalar(cell) == Scalar::Integer(i),
            Datum::Float(bits) => cell_scalar(cell) == Scalar::Float(bits),
            Datum::Text(s) => cell_scalar(cell) == Scalar::Text(s),
            Datum::Blob(b) => cell_scalar(cell) == Scalar::Blob(b),
        },
{
    if let Datum::Text(s) = v {
        vstd::utf8::encode_utf8_valid_utf8(s);
        vstd::utf8::encode_utf8_decode_utf8(s);
    }
}

/// A JSON value stands for the SQL value of its kind: null for NULL, the truth
/// values for one and zero, numbers and texts for themselves, and an object
/// with a text under `base64` for the bytes that the text spells. What else
/// there is stands for NULL.
pub proof fn json_stands_for_its_value(
    v: Json,
    text: String,
    before: Seq<(String, Json)>,
    after: Seq<(String, Json)>,
    members: Vec<(String, Json)>,
    named: (String, Json),
)
    requires
        members@ == before + seq![named] + after,
        named.0@ == "base64"@,
        named.1 == Json::Text(text),
        forall|i: int| 0 <= i < before.len() ==> (#[trigger] before[i]).0@ != "base64"@,
    ensures
        legacy_datum(v) is Unset == false,
        v is Null || v is Array ==> legacy_datum(v) is Null,
        v matches Json::Bool(b) ==> (legacy_datum(v) matches Datum::Integer(i) && (i == 1 <==> b)
            && (i == 0 <==> !b)),
        v matches Json::Integer(i) ==> (legacy_datum(v) matches Datum::Integer(j) && i == j),
        v matches Json::Real(a) ==> (legacy_datum(v) matches Datum::Float(b) && a == b),
        v matches Json::Text(s) ==> (legacy_datum(v) matches Datum::Text(t) && s@ == t),
        base64_bytes(text@) matches Some(bytes) ==> (legacy_datum(
            Json::Object(members),
        ) matches Datum::Blob(b) && b == bytes),
        base64_bytes(text@) is None ==> legacy_datum(Json::Object(members)) is Null,
{
    first_member(members@, before.len() as int, "base64"@);
}

/// An object without a text under `base64` stands for NULL.
pub proof fn other_objects_are_null(members: Vec<(String, Json)>)
    requires
        forall|i: int|
            0 <= i < members@.len() && (#[trigger] members@[i]).0@ == "base64"@ ==> !(
            members@[i].1 is Text),
    ensures
        legacy_datum(Json::Object(members)) is Null,
{
    let at = crate::http::member(members@, "base64"@);
    member_is(members@, "base64"@);
}

proof fn member_is(members: Seq<(String, Json)>, name: Seq<char>)
    ensures
        ({
            let at = crate::http::member(members, name);
            &&& at <= members.len()
            &&& at < members.len() ==> members[at as int].0@ == name
        }),
    decreases members.len(),
{
    if members.len() > 0 && members[0].0@ != name {
        member_is(members.skip(1), name);
    }
}

proof fn first_member(members: Seq<(String, Json)>, n: int, name: Seq<char>)
    requires
        0 <= n < members.len(),
        members[n].0@ == name,
        forall|i: int| 0 <= i < n ==> (#[trigger] members[i]).0@ != name,
    ensures
        crate::http::member(members, name) == n,
    decreases n,
{
    if n > 0 {
        let rest = members.skip(1);
        assert(members[0].0@ != name);
        assert forall|i: int| 0 <= i < n - 1 implies (#[trigger] rest[i]).0@ != name by {
            assert(rest[i] == members[i + 1]);
        }
        first_member(rest, n - 1, name);
    }
}

/// A legacy response shows a value as JSON of its kind, and sent back it is the
/// same value.
pub proof fn shown_value_is_the_value(j: Json, v: Datum)
    requires
        shows(j, v),
        v matches Datum::Blob(b) ==> base64_bytes(base64(b)) == Some(b),
    ensures
        v is Unset || v is Null <==> j is Null,
        v is Integer <==> j is Integer,
        v is Float <==> j is Real,
        v is Text <==> j is Text,
        v is Blob <==> j is Object,
        v !is Unset ==> legacy_datum(j) == v,
{
    if let Json::Object(members) = j {
        first_member(members@, 0, "base64"@);
    }
}

/// The decimal forms of doubles are seen under their bits, as they were given.
pub proof fn decimals_are_seen(texts: Map<u64, String>, bits: u64)
    ensures
        decimals(texts).contains_key(bits) <==> texts.contains_key(bits),
        texts.contains_key(bits) ==> decimals(texts)[bits] == texts[bits]@,
{
}

} // verus!
