//! The statements that replicas are served, read as SQL reads them: the text
//! of a row event says what the event says.

use crate::binlog::value::Scalar;
use crate::binlog::{Op, Row};
use crate::sql::{
    blob_literal_of, cast_literal_of, hex, hex_reads_back, is_nan, joined, literal_of, quoted,
    quoted_reads_back, read_hex, read_quoted, real_literal_of,
};
use crate::sync::{
    assignable, assignments, equation, ident, idents, key_value, literals, on_conflict,
    row_statement, where_clause,
};
use crate::text::{decimal, digit, signed_decimal, signed_decimal_reads_back, signed_value};
use vstd::prelude::*;
use vstd::utf8::{decode_utf8, encode_utf8, valid_utf8};

verus! {

// ---------------------------------------------------------------------------
// Tokens
// ---------------------------------------------------------------------------

/// What follows `word`, where `s` starts with it.
pub open spec fn strip(s: Seq<char>, word: Seq<char>) -> Option<Seq<char>> {
    if s.len() >= word.len() && s.take(word.len() as int) == word {
        Some(s.skip(word.len() as int))
    } else {
        None
    }
}

proof fn strip_reads_back(word: Seq<char>, rest: Seq<char>)
    ensures
        strip(word + rest, word) == Some(rest),
{
    assert((word + rest).take(word.len() as int) =~= word);
    assert((word + rest).skip(word.len() as int) =~= rest);
}

/// Whether a token ends before `rest`.
pub open spec fn ends(rest: Seq<char>) -> bool {
    rest.len() > 0 && (rest[0] == ',' || rest[0] == ')' || rest[0] == ';' || rest[0] == ' ')
}

/// The quoted identifier that `s` starts with, and what follows.
pub open spec fn read_ident(s: Seq<char>) -> Option<(Seq<char>, Seq<char>)> {
    if s.len() > 0 && s[0] == '"' {
        read_quoted(s.skip(1), '"')
    } else {
        None
    }
}

proof fn ident_reads_back(name: Seq<char>, rest: Seq<char>)
    requires
        ends(rest),
    ensures
        read_ident(ident(name) + rest) == Some((name, rest)),
{
    quoted_reads_back(name, '"', rest);
    assert((quoted(name, '"') + rest)[0] == quoted(name, '"')[0]);
}

/// The number of characters before a `c`.
pub open spec fn until(s: Seq<char>, c: char) -> nat
    decreases s.len(),
{
    if s.len() == 0 || s[0] == c {
        0
    } else {
        1 + until(s.skip(1), c)
    }
}

proof fn until_end(s: Seq<char>, c: char, rest: Seq<char>)
    requires
        !s.contains(c),
        rest.len() > 0,
        rest[0] == c,
    ensures
        until(s + rest, c) == s.len(),
    decreases s.len(),
{
    if s.len() == 0 {
        assert(s + rest =~= rest);
    } else {
        assert(s[0] != c);
        assert(!s.skip(1).contains(c)) by {
            if s.skip(1).contains(c) {
                let i = choose|i: int| 0 <= i < s.skip(1).len() && s.skip(1)[i] == c;
                assert(s[i + 1] == c);
            }
        }
        until_end(s.skip(1), c, rest);
        assert((s + rest).skip(1) =~= s.skip(1) + rest);
    }
}

/// The bytes that `X'..'` stands for, and what follows.
pub open spec fn read_bytes(s: Seq<char>) -> Option<(Seq<u8>, Seq<char>)> {
    if s.len() >= 2 && s[0] == 'X' && s[1] == '\'' {
        let n = until(s.skip(2), '\'') as int;
        if n + 2 < s.len() {
            match read_hex(s.subrange(2, n + 2)) {
                Some(b) => Some((b, s.skip(n + 3))),
                None => None,
            }
        } else {
            None
        }
    } else {
        None
    }
}

proof fn hex_has_no_quote(b: Seq<u8>)
    ensures
        !hex(b).contains('\''),
    decreases b.len(),
{
    if b.len() > 0 {
        hex_has_no_quote(b.drop_last());
        let s = hex(b);
        let before = hex(b.drop_last());
        if s.contains('\'') {
            let i = choose|i: int| 0 <= i < s.len() && s[i] == '\'';
            if i < before.len() {
                assert(before[i] == '\'');
            }
            assert(digit((b.last() / 16) as int) != '\'' && digit((b.last() % 16) as int) != '\'');
        }
    }
}

proof fn bytes_read_back(b: Seq<u8>, rest: Seq<char>)
    ensures
        read_bytes(blob_literal_of(b) + rest) == Some((b, rest)),
{
    let s = blob_literal_of(b) + rest;
    let h = hex(b);
    let tail = seq!['\''] + rest;
    assert(s =~= seq!['X', '\''] + (h + tail));
    assert(s.skip(2) =~= h + tail);
    hex_has_no_quote(b);
    until_end(h, '\'', tail);
    assert(s.subrange(2, h.len() as int + 2) =~= h);
    assert(s.skip(h.len() as int + 3) =~= rest);
    hex_reads_back(b);
}

/// A character of a number.
pub open spec fn is_numeric(c: char) -> bool {
    '0' <= c <= '9' || c == '.' || c == 'e' || c == 'E' || c == '+' || c == '-'
}

pub open spec fn all_numeric(s: Seq<char>) -> bool {
    forall|i: int| 0 <= i < s.len() ==> is_numeric(#[trigger] s[i])
}

/// The number of characters of the number that `s` starts with.
pub open spec fn numeric_len(s: Seq<char>) -> nat
    decreases s.len(),
{
    if s.len() > 0 && is_numeric(s[0]) {
        1 + numeric_len(s.skip(1))
    } else {
        0
    }
}

proof fn numeric_end(s: Seq<char>, rest: Seq<char>)
    requires
        all_numeric(s),
        ends(rest),
    ensures
        numeric_len(s + rest) == s.len(),
    decreases s.len(),
{
    if s.len() == 0 {
        assert(s + rest =~= rest);
    } else {
        assert(all_numeric(s.skip(1))) by {
            assert forall|i: int| 0 <= i < s.skip(1).len() implies is_numeric(
                #[trigger] s.skip(1)[i],
            ) by {
                assert(is_numeric(s[i + 1]));
            }
        }
        numeric_end(s.skip(1), rest);
        assert((s + rest).skip(1) =~= s.skip(1) + rest);
        assert(is_numeric(s[0]));
    }
}

/// Whether a number is one that SQL reads as a real number.
pub open spec fn is_real(s: Seq<char>) -> bool {
    s.contains('.') || s.contains('e') || s.contains('E')
}

/// The text that bytes stand for.
pub open spec fn bytes_text(b: Seq<u8>) -> Scalar {
    if valid_utf8(b) {
        Scalar::Text(decode_utf8(b))
    } else {
        Scalar::RawText(b)
    }
}

/// The literal that `s` starts with, and what follows. `doubles` tells what a
/// real number's text stands for.
pub open spec fn read_literal(s: Seq<char>, doubles: spec_fn(Seq<char>) -> u64) -> Option<
    (Option<Scalar>, Seq<char>),
> {
    if s.len() == 0 {
        None
    } else if s[0] == '\'' {
        match read_quoted(s.skip(1), '\'') {
            Some((text, rest)) => Some((Some(Scalar::Text(text)), rest)),
            None => None,
        }
    } else if s[0] == 'X' {
        match read_bytes(s) {
            Some((b, rest)) => Some((Some(Scalar::Blob(b)), rest)),
            None => None,
        }
    } else if s[0] == 'C' {
        match strip(s, "CAST("@) {
            Some(inner) => match read_bytes(inner) {
                Some((b, rest)) => match strip(rest, " AS TEXT)"@) {
                    Some(rest) => Some((Some(bytes_text(b)), rest)),
                    None => None,
                },
                None => None,
            },
            None => None,
        }
    } else if s[0] == 'N' {
        match strip(s, "NULL"@) {
            Some(rest) => Some((Some(Scalar::Null), rest)),
            None => None,
        }
    } else {
        let n = numeric_len(s) as int;
        let number = s.take(n);
        if is_real(number) {
            Some((Some(Scalar::Float(doubles(number))), s.skip(n)))
        } else {
            match signed_value(number) {
                Some(v) => Some((Some(Scalar::Integer(v as i64)), s.skip(n))),
                None => None,
            }
        }
    }
}

/// Whether the bits are those of an infinity or of the negative zero, whose
/// literals are not made of a decimal form.
pub open spec fn has_own_literal(bits: u64) -> bool {
    bits == 0x7ff0_0000_0000_0000 || bits == 0xfff0_0000_0000_0000 || bits == 0x8000_0000_0000_0000
}

/// Whether a value is one that SQLite stores, and whose literal says it: no
/// double that is not a number, the decimal form of a double reads back as the
/// double, and a text is raw only where it is not UTF-8.
pub open spec fn plain(
    v: Option<Scalar>,
    reals: Map<u64, Seq<char>>,
    doubles: spec_fn(Seq<char>) -> u64,
) -> bool {
    match v {
        None => false,
        Some(Scalar::Float(bits)) => {
            &&& !is_nan(bits)
            &&& reals.contains_key(bits)
            &&& has_own_literal(bits) || (all_numeric(reals[bits]) && reals[bits].len() > 0)
            &&& doubles(real_literal_of(bits, reals[bits])) == bits
        },
        Some(Scalar::RawText(b)) => !valid_utf8(b),
        _ => true,
    }
}

proof fn decimal_is_digits(v: nat)
    ensures
        decimal(v).len() > 0,
        forall|i: int| 0 <= i < decimal(v).len() ==> '0' <= #[trigger] decimal(v)[i] <= '9',
    decreases v,
{
    if v >= 10 {
        decimal_is_digits(v / 10);
    }
}

proof fn integer_reads_back(i: i64, rest: Seq<char>, doubles: spec_fn(Seq<char>) -> u64)
    requires
        ends(rest),
    ensures
        read_literal(signed_decimal(i as int) + rest, doubles) == Some(
            (Some(Scalar::Integer(i)), rest),
        ),
{
    let t = signed_decimal(i as int);
    let s = t + rest;
    if i < 0 {
        decimal_is_digits((-i) as nat);
    } else {
        decimal_is_digits(i as nat);
    }
    assert forall|k: int| 0 <= k < t.len() implies is_numeric(#[trigger] t[k]) && t[k] != '.'
        && t[k] != 'e' && t[k] != 'E' by {
        if i < 0 && k > 0 {
            assert(t[k] == decimal((-i) as nat)[k - 1]);
        }
    }
    numeric_end(t, rest);
    signed_decimal_reads_back(i as int);
    assert(s.take(t.len() as int) =~= t);
    assert(s.skip(t.len() as int) =~= rest);
    assert(s[0] == t[0]);
    assert(is_numeric(t[0]));
    assert(!is_real(t));
}

proof fn real_reads_back(
    bits: u64,
    reals: Map<u64, Seq<char>>,
    rest: Seq<char>,
    doubles: spec_fn(Seq<char>) -> u64,
)
    requires
        ends(rest),
        plain(Some(Scalar::Float(bits)), reals, doubles),
    ensures
        read_literal(real_literal_of(bits, reals[bits]) + rest, doubles) == Some(
            (Some(Scalar::Float(bits)), rest),
        ),
{
    let t = real_literal_of(bits, reals[bits]);
    let s = t + rest;
    reveal_strlit("9e999");
    reveal_strlit("-9e999");
    reveal_strlit("-0.0");
    reveal_strlit(".0");
    assert(is_real(t)) by {
        if bits == 0x7ff0_0000_0000_0000 {
            assert(t[1] == 'e');
        } else if bits == 0xfff0_0000_0000_0000 {
            assert(t[2] == 'e');
        } else if bits == 0x8000_0000_0000_0000 {
            assert(t[2] == '.');
        } else if t != reals[bits] {
            assert(t[reals[bits].len() as int] == '.');
        }
    }
    assert forall|k: int| 0 <= k < t.len() implies is_numeric(#[trigger] t[k]) by {
        let d = reals[bits];
        if !has_own_literal(bits) && k < d.len() {
            assert(is_numeric(d[k]));
        }
    }
    assert(t.len() > 0);
    numeric_end(t, rest);
    assert(s.take(t.len() as int) =~= t);
    assert(s.skip(t.len() as int) =~= rest);
    assert(s[0] == t[0]);
    assert(is_numeric(t[0]));
}

proof fn cast_reads_back(b: Seq<u8>, rest: Seq<char>, doubles: spec_fn(Seq<char>) -> u64)
    ensures
        read_literal(cast_literal_of(b) + rest, doubles) == Some((Some(bytes_text(b)), rest)),
{
    reveal_strlit("CAST(");
    reveal_strlit(" AS TEXT)");
    let tail = " AS TEXT)"@ + rest;
    let inner = blob_literal_of(b) + tail;
    let s = cast_literal_of(b) + rest;
    assert(s =~= "CAST("@ + inner);
    strip_reads_back("CAST("@, inner);
    bytes_read_back(b, tail);
    strip_reads_back(" AS TEXT)"@, rest);
    assert(s[0] == 'C');
}

/// A literal is read back as the value it was made of.
pub proof fn literal_reads_back(
    v: Option<Scalar>,
    reals: Map<u64, Seq<char>>,
    rest: Seq<char>,
    doubles: spec_fn(Seq<char>) -> u64,
)
    requires
        plain(v, reals, doubles),
        ends(rest),
    ensures
        read_literal(literal_of(v, reals) + rest, doubles) == Some((v, rest)),
{
    let s = literal_of(v, reals) + rest;
    match v {
        None => {},
        Some(Scalar::Null) => {
            reveal_strlit("NULL");
            strip_reads_back("NULL"@, rest);
            assert(s[0] == 'N');
        },
        Some(Scalar::Integer(i)) => {
            integer_reads_back(i, rest, doubles);
        },
        Some(Scalar::Float(bits)) => {
            real_reads_back(bits, reals, rest, doubles);
        },
        Some(Scalar::Text(text)) => {
            if text.contains('\0') {
                cast_reads_back(encode_utf8(text), rest, doubles);
                vstd::utf8::encode_utf8_valid_utf8(text);
                vstd::utf8::encode_utf8_decode_utf8(text);
            } else {
                quoted_reads_back(text, '\'', rest);
                assert(s[0] == quoted(text, '\'')[0]);
            }
        },
        Some(Scalar::Blob(b)) => {
            bytes_read_back(b, rest);
            assert(s[0] == 'X');
        },
        Some(Scalar::RawText(b)) => {
            cast_reads_back(b, rest, doubles);
        },
    }
}

// ---------------------------------------------------------------------------
// Lists
// ---------------------------------------------------------------------------

/// The items that `s` starts with, with `sep` between each two, and what
/// follows.
pub open spec fn read_list<T>(
    s: Seq<char>,
    item: spec_fn(Seq<char>) -> Option<(T, Seq<char>)>,
    sep: Seq<char>,
) -> Option<(Seq<T>, Seq<char>)>
    decreases s.len(),
{
    match item(s) {
        None => None,
        Some((x, rest)) => match strip(rest, sep) {
            None => Some((seq![x], rest)),
            Some(more) => if more.len() < s.len() {
                match read_list(more, item, sep) {
                    None => None,
                    Some((xs, rest)) => Some((seq![x] + xs, rest)),
                }
            } else {
                None
            },
        },
    }
}

/// Whether `text` is read as `x`, whatever follows it.
pub open spec fn reads_as<T>(
    item: spec_fn(Seq<char>) -> Option<(T, Seq<char>)>,
    text: Seq<char>,
    x: T,
) -> bool {
    forall|rest: Seq<char>| ends(rest) ==> #[trigger] item(text + rest) == Some((x, rest))
}

proof fn joined_first(items: Seq<Seq<char>>, sep: Seq<char>)
    requires
        items.len() > 1,
    ensures
        joined(items, sep) == items[0] + sep + joined(items.skip(1), sep),
    decreases items.len(),
{
    if items.len() == 2 {
        reveal_with_fuel(joined, 2);
        assert(items.drop_last().len() == 1);
        assert(items.drop_last()[0] == items[0]);
        assert(items.skip(1).len() == 1);
        assert(items.skip(1)[0] == items.last());
    } else {
        joined_first(items.drop_last(), sep);
        assert(items.drop_last().skip(1) =~= items.skip(1).drop_last());
        assert(items.skip(1).last() == items.last());
        assert(joined(items, sep) =~= items[0] + sep + joined(items.skip(1), sep));
    }
}

proof fn list_reads_back<T>(
    texts: Seq<Seq<char>>,
    xs: Seq<T>,
    item: spec_fn(Seq<char>) -> Option<(T, Seq<char>)>,
    sep: Seq<char>,
    rest: Seq<char>,
)
    requires
        texts.len() == xs.len(),
        texts.len() > 0,
        ends(sep),
        ends(rest),
        strip(rest, sep) is None,
        forall|i: int| 0 <= i < texts.len() ==> reads_as(item, #[trigger] texts[i], xs[i]),
    ensures
        read_list(joined(texts, sep) + rest, item, sep) == Some((xs, rest)),
    decreases texts.len(),
{
    let s = joined(texts, sep) + rest;
    assert(reads_as(item, texts[0], xs[0]));
    if texts.len() == 1 {
        assert(item(texts[0] + rest) == Some((xs[0], rest)));
        assert(seq![xs[0]] =~= xs);
    } else {
        let more = joined(texts.skip(1), sep) + rest;
        joined_first(texts, sep);
        assert(s =~= texts[0] + (sep + more));
        assert(ends(sep + more));
        assert(item(texts[0] + (sep + more)) == Some((xs[0], sep + more)));
        strip_reads_back(sep, more);
        assert forall|i: int| 0 <= i < texts.skip(1).len() implies reads_as(
            item,
            #[trigger] texts.skip(1)[i],
            xs.skip(1)[i],
        ) by {
            assert(reads_as(item, texts[i + 1], xs[i + 1]));
        }
        list_reads_back(texts.skip(1), xs.skip(1), item, sep, rest);
        assert(seq![xs[0]] + xs.skip(1) =~= xs);
    }
}

// ---------------------------------------------------------------------------
// Statements
// ---------------------------------------------------------------------------

/// A column and a value.
pub struct Cond {
    pub column: Seq<char>,
    pub value: Option<Scalar>,
}

/// What a row statement says.
#[verifier::ext_equal]
pub enum Command {
    /// To write a row; where one with that key is there, its columns `sets`.
    Upsert {
        table: Seq<char>,
        columns: Seq<Seq<char>>,
        values: Seq<Option<Scalar>>,
        key: Seq<Seq<char>>,
        sets: Seq<Seq<char>>,
    },
    /// To set columns of the row with that key.
    Update { table: Seq<char>, to: Seq<Cond>, at: Seq<Cond> },
    /// To remove the row with that key.
    Delete { table: Seq<char>, at: Seq<Cond> },
}

/// `"column" = literal`.
pub open spec fn read_equation(s: Seq<char>, doubles: spec_fn(Seq<char>) -> u64) -> Option<
    (Cond, Seq<char>),
> {
    match read_ident(s) {
        Some((column, rest)) => match strip(rest, " = "@) {
            Some(rest) => match read_literal(rest, doubles) {
                Some((value, rest)) => Some((Cond { column, value }, rest)),
                None => None,
            },
            None => None,
        },
        None => None,
    }
}

/// `"column" = excluded."column"`.
pub open spec fn read_excluded(s: Seq<char>) -> Option<(Seq<char>, Seq<char>)> {
    match read_ident(s) {
        Some((column, rest)) => match strip(rest, " = excluded."@) {
            Some(rest) => match read_ident(rest) {
                Some((other, rest)) => if other == column {
                    Some((column, rest))
                } else {
                    None
                },
                None => None,
            },
            None => None,
        },
        None => None,
    }
}

pub open spec fn ident_item() -> spec_fn(Seq<char>) -> Option<(Seq<char>, Seq<char>)> {
    |s: Seq<char>| read_ident(s)
}

pub open spec fn excluded_item() -> spec_fn(Seq<char>) -> Option<(Seq<char>, Seq<char>)> {
    |s: Seq<char>| read_excluded(s)
}

pub open spec fn literal_item(doubles: spec_fn(Seq<char>) -> u64) -> spec_fn(Seq<char>) -> Option<
    (Option<Scalar>, Seq<char>),
> {
    |s: Seq<char>| read_literal(s, doubles)
}

pub open spec fn equation_item(doubles: spec_fn(Seq<char>) -> u64) -> spec_fn(
    Seq<char>,
) -> Option<(Cond, Seq<char>)> {
    |s: Seq<char>| read_equation(s, doubles)
}

/// What follows `ON CONFLICT(..) `: the columns that are set.
pub open spec fn read_conflict(s: Seq<char>) -> Option<Seq<Seq<char>>> {
    if s == "DO NOTHING;"@ {
        Some(seq![])
    } else {
        match strip(s, "DO UPDATE SET "@) {
            Some(rest) => match read_list(rest, excluded_item(), ", "@) {
                Some((sets, rest)) => if rest == ";"@ {
                    Some(sets)
                } else {
                    None
                },
                None => None,
            },
            None => None,
        }
    }
}

/// What follows the values of an upsert.
pub open spec fn read_upsert_end(
    s: Seq<char>,
    table: Seq<char>,
    columns: Seq<Seq<char>>,
    values: Seq<Option<Scalar>>,
) -> Option<Command> {
    match strip(s, ") ON CONFLICT("@) {
        Some(rest) => match read_list(rest, ident_item(), ", "@) {
            Some((key, rest)) => match strip(rest, ") "@) {
                Some(rest) => match read_conflict(rest) {
                    Some(sets) => Some(Command::Upsert { table, columns, values, key, sets }),
                    None => None,
                },
                None => None,
            },
            None => None,
        },
        None => None,
    }
}

/// What follows the table of an upsert.
pub open spec fn read_upsert(
    s: Seq<char>,
    table: Seq<char>,
    doubles: spec_fn(Seq<char>) -> u64,
) -> Option<Command> {
    match strip(s, " ("@) {
        Some(rest) => match read_list(rest, ident_item(), ", "@) {
            Some((columns, rest)) => match strip(rest, ") VALUES ("@) {
                Some(rest) => match read_list(rest, literal_item(doubles), ", "@) {
                    Some((values, rest)) => read_upsert_end(rest, table, columns, values),
                    None => None,
                },
                None => None,
            },
            None => None,
        },
        None => None,
    }
}

/// A condition that ends the statement.
pub open spec fn read_where(s: Seq<char>, doubles: spec_fn(Seq<char>) -> u64) -> Option<
    Seq<Cond>,
> {
    match strip(s, " WHERE "@) {
        Some(rest) => match read_list(rest, equation_item(doubles), " AND "@) {
            Some((key, rest)) => if rest == ";"@ {
                Some(key)
            } else {
                None
            },
            None => None,
        },
        None => None,
    }
}

/// What follows the table of an update.
pub open spec fn read_update(
    s: Seq<char>,
    table: Seq<char>,
    doubles: spec_fn(Seq<char>) -> u64,
) -> Option<Command> {
    match strip(s, " SET "@) {
        Some(rest) => match read_list(rest, equation_item(doubles), ", "@) {
            Some((sets, rest)) => match read_where(rest, doubles) {
                Some(at) => Some(Command::Update { table, to: sets, at }),
                None => None,
            },
            None => None,
        },
        None => None,
    }
}

/// What a row statement says, if the text is one.
pub open spec fn read_command(s: Seq<char>, doubles: spec_fn(Seq<char>) -> u64) -> Option<Command> {
    match strip(s, "INSERT INTO "@) {
        Some(rest) => match read_ident(rest) {
            Some((table, rest)) => read_upsert(rest, table, doubles),
            None => None,
        },
        None => match strip(s, "UPDATE "@) {
            Some(rest) => match read_ident(rest) {
                Some((table, rest)) => read_update(rest, table, doubles),
                None => None,
            },
            None => match strip(s, "DELETE FROM "@) {
                Some(rest) => match read_ident(rest) {
                    Some((table, rest)) => match read_where(rest, doubles) {
                        Some(at) => Some(Command::Delete { table, at }),
                        None => None,
                    },
                    None => None,
                },
                None => None,
            },
        },
    }
}

/// The columns of an event's key with their values.
pub open spec fn key_conds(r: Row) -> Seq<Cond> {
    r.pk_columns.map_values(|c: Seq<char>| Cond { column: c, value: key_value(r, c) })
}

/// The columns of an event's after-image with their values.
pub open spec fn image_conds(r: Row) -> Seq<Cond> {
    Seq::new(r.columns.len(), |i: int| Cond { column: r.columns[i], value: r.values[i] })
}

/// What an event says.
pub open spec fn command(r: Row) -> Command {
    if r.op == Op::Insert.number() {
        Command::Upsert {
            table: r.table,
            columns: r.columns,
            values: r.values,
            key: r.pk_columns,
            sets: assignable(r.columns, r.pk_columns),
        }
    } else if r.op == Op::Update.number() {
        Command::Update { table: r.table, to: image_conds(r), at: key_conds(r) }
    } else {
        Command::Delete { table: r.table, at: key_conds(r) }
    }
}

/// Whether an event has all that its statement needs: a key, and values that
/// are plain, one for each column.
pub open spec fn spelled(
    r: Row,
    reals: Map<u64, Seq<char>>,
    doubles: spec_fn(Seq<char>) -> u64,
) -> bool {
    &&& r.pk_columns.len() > 0
    &&& r.op != Op::Delete.number() ==> r.columns.len() > 0 && r.columns.len() == r.values.len()
    &&& forall|i: int| 0 <= i < r.values.len() ==> plain(#[trigger] r.values[i], reals, doubles)
    &&& forall|i: int|
        0 <= i < r.pk_columns.len() ==> plain(
            key_value(r, #[trigger] r.pk_columns[i]),
            reals,
            doubles,
        )
}

proof fn idents_read_back(names: Seq<Seq<char>>, rest: Seq<char>)
    requires
        names.len() > 0,
        ends(rest),
        strip(rest, ", "@) is None,
    ensures
        read_list(joined(idents(names), ", "@) + rest, ident_item(), ", "@) == Some((names, rest)),
{
    reveal_strlit(", ");
    let texts = idents(names);
    assert forall|i: int| 0 <= i < texts.len() implies reads_as(
        ident_item(),
        #[trigger] texts[i],
        names[i],
    ) by {
        assert forall|r: Seq<char>| ends(r) implies #[trigger] ident_item()(texts[i] + r) == Some(
            (names[i], r),
        ) by {
            ident_reads_back(names[i], r);
        }
    }
    list_reads_back(texts, names, ident_item(), ", "@, rest);
}

proof fn literals_read_back(
    values: Seq<Option<Scalar>>,
    reals: Map<u64, Seq<char>>,
    rest: Seq<char>,
    doubles: spec_fn(Seq<char>) -> u64,
)
    requires
        values.len() > 0,
        forall|i: int| 0 <= i < values.len() ==> plain(#[trigger] values[i], reals, doubles),
        ends(rest),
        strip(rest, ", "@) is None,
    ensures
        read_list(joined(literals(values, reals), ", "@) + rest, literal_item(doubles), ", "@)
            == Some((values, rest)),
{
    reveal_strlit(", ");
    let texts = literals(values, reals);
    assert forall|i: int| 0 <= i < texts.len() implies reads_as(
        literal_item(doubles),
        #[trigger] texts[i],
        values[i],
    ) by {
        assert(plain(values[i], reals, doubles));
        assert forall|r: Seq<char>| ends(r) implies #[trigger] literal_item(doubles)(texts[i] + r)
            == Some((values[i], r)) by {
            literal_reads_back(values[i], reals, r, doubles);
        }
    }
    list_reads_back(texts, values, literal_item(doubles), ", "@, rest);
}

proof fn equation_reads_back(
    column: Seq<char>,
    v: Option<Scalar>,
    reals: Map<u64, Seq<char>>,
    rest: Seq<char>,
    doubles: spec_fn(Seq<char>) -> u64,
)
    requires
        plain(v, reals, doubles),
        ends(rest),
    ensures
        read_equation(equation(column, v, reals) + rest, doubles) == Some(
            (Cond { column, value: v }, rest),
        ),
{
    reveal_strlit(" = ");
    let tail = literal_of(v, reals) + rest;
    let s = equation(column, v, reals) + rest;
    assert(s =~= ident(column) + (" = "@ + tail));
    ident_reads_back(column, " = "@ + tail);
    strip_reads_back(" = "@, tail);
    literal_reads_back(v, reals, rest, doubles);
}

proof fn excluded_reads_back(column: Seq<char>, rest: Seq<char>)
    requires
        ends(rest),
    ensures
        read_excluded(ident(column) + " = excluded."@ + ident(column) + rest) == Some(
            (column, rest),
        ),
{
    reveal_strlit(" = excluded.");
    let tail = ident(column) + rest;
    let s = ident(column) + " = excluded."@ + ident(column) + rest;
    assert(s =~= ident(column) + (" = excluded."@ + tail));
    ident_reads_back(column, " = excluded."@ + tail);
    strip_reads_back(" = excluded."@, tail);
    ident_reads_back(column, rest);
}

proof fn equations_read_back(
    texts: Seq<Seq<char>>,
    conds: Seq<Cond>,
    sep: Seq<char>,
    reals: Map<u64, Seq<char>>,
    rest: Seq<char>,
    doubles: spec_fn(Seq<char>) -> u64,
)
    requires
        texts.len() == conds.len(),
        texts.len() > 0,
        ends(sep),
        ends(rest),
        strip(rest, sep) is None,
        forall|i: int|
            0 <= i < conds.len() ==> #[trigger] texts[i] == equation(
                conds[i].column,
                conds[i].value,
                reals,
            ) && plain(conds[i].value, reals, doubles),
    ensures
        read_list(joined(texts, sep) + rest, equation_item(doubles), sep) == Some((conds, rest)),
{
    assert forall|i: int| 0 <= i < texts.len() implies reads_as(
        equation_item(doubles),
        #[trigger] texts[i],
        conds[i],
    ) by {
        assert(texts[i] == equation(conds[i].column, conds[i].value, reals));
        assert forall|r: Seq<char>| ends(r) implies #[trigger] equation_item(doubles)(
            texts[i] + r,
        ) == Some((conds[i], r)) by {
            equation_reads_back(conds[i].column, conds[i].value, reals, r, doubles);
        }
    }
    list_reads_back(texts, conds, equation_item(doubles), sep, rest);
}

proof fn where_reads_back(
    r: Row,
    reals: Map<u64, Seq<char>>,
    doubles: spec_fn(Seq<char>) -> u64,
)
    requires
        spelled(r, reals, doubles),
    ensures
        read_where(" WHERE "@ + where_clause(r, reals) + ";"@, doubles) == Some(key_conds(r)),
{
    reveal_strlit(" AND ");
    reveal_strlit(";");
    reveal_strlit(" WHERE ");
    let texts = r.pk_columns.map_values(|c: Seq<char>| equation(c, key_value(r, c), reals));
    let conds = key_conds(r);
    assert forall|i: int| 0 <= i < conds.len() implies #[trigger] texts[i] == equation(
        conds[i].column,
        conds[i].value,
        reals,
    ) && plain(conds[i].value, reals, doubles) by {
        assert(plain(key_value(r, r.pk_columns[i]), reals, doubles));
    }
    assert(strip(";"@, " AND "@) is None);
    equations_read_back(texts, conds, " AND "@, reals, ";"@, doubles);
    let tail = where_clause(r, reals) + ";"@;
    assert(" WHERE "@ + where_clause(r, reals) + ";"@ =~= " WHERE "@ + tail);
    strip_reads_back(" WHERE "@, tail);
}

proof fn conflict_reads_back(columns: Seq<Seq<char>>, pk: Seq<Seq<char>>)
    ensures
        read_conflict(on_conflict(columns, pk) + ";"@) == Some(assignable(columns, pk)),
{
    reveal_strlit("DO NOTHING");
    reveal_strlit("DO NOTHING;");
    reveal_strlit("DO UPDATE SET ");
    reveal_strlit(";");
    reveal_strlit(", ");
    let names = assignable(columns, pk);
    let s = on_conflict(columns, pk) + ";"@;
    if names.len() == 0 {
        assert(s =~= "DO NOTHING;"@);
        assert(names =~= seq![]);
    } else {
        let texts = names.map_values(|c: Seq<char>| ident(c) + " = excluded."@ + ident(c));
        let tail = joined(texts, ", "@) + ";"@;
        assert(s =~= "DO UPDATE SET "@ + tail);
        assert(s[3] == 'U');
        assert("DO NOTHING;"@[3] == 'N');
        strip_reads_back("DO UPDATE SET "@, tail);
        assert forall|i: int| 0 <= i < texts.len() implies reads_as(
            excluded_item(),
            #[trigger] texts[i],
            names[i],
        ) by {
            assert forall|r: Seq<char>| ends(r) implies #[trigger] excluded_item()(texts[i] + r)
                == Some((names[i], r)) by {
                excluded_reads_back(names[i], r);
            }
        }
        assert(strip(";"@, ", "@) is None);
        list_reads_back(texts, names, excluded_item(), ", "@, ";"@);
    }
}

proof fn upsert_reads_back(r: Row, reals: Map<u64, Seq<char>>, doubles: spec_fn(Seq<char>) -> u64)
    requires
        spelled(r, reals, doubles),
        r.op == Op::Insert.number(),
    ensures
        read_command(row_statement(r, reals), doubles) == Some(command(r)),
{
    reveal_strlit("INSERT INTO ");
    reveal_strlit(" (");
    reveal_strlit(") VALUES (");
    reveal_strlit(") ON CONFLICT(");
    reveal_strlit(") ");
    reveal_strlit(", ");
    reveal_strlit(";");
    let end = on_conflict(r.columns, r.pk_columns) + ";"@;
    let t5 = ") "@ + end;
    let t4 = joined(idents(r.pk_columns), ", "@) + t5;
    let t3 = ") ON CONFLICT("@ + t4;
    let t2 = joined(literals(r.values, reals), ", "@) + t3;
    let t1 = ") VALUES ("@ + t2;
    let t0 = joined(idents(r.columns), ", "@) + t1;
    let after = " ("@ + t0;
    let named = ident(r.table) + after;
    let s = row_statement(r, reals);
    assert(s =~= "INSERT INTO "@ + named);
    strip_reads_back("INSERT INTO "@, named);
    ident_reads_back(r.table, after);
    strip_reads_back(" ("@, t0);
    assert(t1[0] == ')' && t3[0] == ')' && t5[0] == ')');
    assert(strip(t1, ", "@) is None) by {
        assert(t1.take(2)[0] != ", "@[0]);
    }
    assert(strip(t3, ", "@) is None) by {
        assert(t3.take(2)[0] != ", "@[0]);
    }
    assert(strip(t5, ", "@) is None) by {
        assert(t5.take(2)[0] != ", "@[0]);
    }
    idents_read_back(r.columns, t1);
    strip_reads_back(") VALUES ("@, t2);
    literals_read_back(r.values, reals, t3, doubles);
    strip_reads_back(") ON CONFLICT("@, t4);
    idents_read_back(r.pk_columns, t5);
    strip_reads_back(") "@, end);
    conflict_reads_back(r.columns, r.pk_columns);
}

proof fn update_reads_back(r: Row, reals: Map<u64, Seq<char>>, doubles: spec_fn(Seq<char>) -> u64)
    requires
        spelled(r, reals, doubles),
        r.op == Op::Update.number(),
    ensures
        read_command(row_statement(r, reals), doubles) == Some(command(r)),
{
    reveal_strlit("INSERT INTO ");
    reveal_strlit("UPDATE ");
    reveal_strlit(" SET ");
    reveal_strlit(" WHERE ");
    reveal_strlit(", ");
    let tail = " WHERE "@ + where_clause(r, reals) + ";"@;
    let texts = assignments(r, reals);
    let t0 = joined(texts, ", "@) + tail;
    let after = " SET "@ + t0;
    let named = ident(r.table) + after;
    let s = row_statement(r, reals);
    assert(s =~= "UPDATE "@ + named);
    assert(strip(s, "INSERT INTO "@) is None) by {
        if s.len() >= 12 {
            assert(s.take(12)[0] == 'U');
        }
    }
    strip_reads_back("UPDATE "@, named);
    ident_reads_back(r.table, after);
    strip_reads_back(" SET "@, t0);
    assert(tail[0] == ' ');
    assert(strip(tail, ", "@) is None) by {
        assert(tail.take(2)[0] != ", "@[0]);
    }
    let conds = image_conds(r);
    assert forall|i: int| 0 <= i < conds.len() implies #[trigger] texts[i] == equation(
        conds[i].column,
        conds[i].value,
        reals,
    ) && plain(conds[i].value, reals, doubles) by {
        assert(plain(r.values[i], reals, doubles));
    }
    equations_read_back(texts, conds, ", "@, reals, tail, doubles);
    where_reads_back(r, reals, doubles);
}

proof fn delete_reads_back(r: Row, reals: Map<u64, Seq<char>>, doubles: spec_fn(Seq<char>) -> u64)
    requires
        spelled(r, reals, doubles),
        r.op == Op::Delete.number(),
    ensures
        read_command(row_statement(r, reals), doubles) == Some(command(r)),
{
    reveal_strlit("INSERT INTO ");
    reveal_strlit("UPDATE ");
    reveal_strlit("DELETE FROM ");
    reveal_strlit(" WHERE ");
    let tail = " WHERE "@ + where_clause(r, reals) + ";"@;
    let named = ident(r.table) + tail;
    let s = row_statement(r, reals);
    assert(s =~= "DELETE FROM "@ + named);
    assert(strip(s, "INSERT INTO "@) is None) by {
        assert(s.take(12)[0] == 'D');
    }
    assert(strip(s, "UPDATE "@) is None) by {
        assert(s.take(7)[0] == 'D');
    }
    strip_reads_back("DELETE FROM "@, named);
    assert(tail[0] == ' ');
    ident_reads_back(r.table, tail);
    where_reads_back(r, reals, doubles);
}

/// The statement of a row event says what the event says.
pub proof fn statement_reads_back(
    r: Row,
    reals: Map<u64, Seq<char>>,
    doubles: spec_fn(Seq<char>) -> u64,
)
    requires
        spelled(r, reals, doubles),
        exists|op: Op| #[trigger] op.number() == r.op,
    ensures
        read_command(row_statement(r, reals), doubles) == Some(command(r)),
{
    if r.op == Op::Insert.number() {
        upsert_reads_back(r, reals, doubles);
    } else if r.op == Op::Update.number() {
        update_reads_back(r, reals, doubles);
    } else {
        delete_reads_back(r, reals, doubles);
    }
}

} // verus!
