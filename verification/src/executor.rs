//! Statement execution: what is checked, bound and answered around the calls
//! that SQLite itself takes.

use crate::error::{sqlite_code, sqlite_message, Failure, SqliteError, StmtError};
use crate::hrana::proto::{
    Col, Datum, DescribeCol, DescribeParam, DescribeResult, NamedArg, Row, StmtResult, Value,
};
use crate::model::{group_views, views};
use crate::sql::{
    leads, leads_at, skip_blank, skip_blank_at, skip_space, skip_space_back, starts_with,
    starts_with_word, trim_end, trim_start,
};
use crate::text::{
    chars_of, decimal, parse_u64, push_decimal, same_text, text_of, unsigned_value,
};
use crate::wire::{lossy_text, utf8_text_lossy};
use vstd::prelude::*;
use vstd::utf8::{decode_utf8, encode_utf8, is_char_boundary, valid_utf8};

verus! {

broadcast use group_views;

/// Arguments as received from the Hrana wire protocol.
#[derive(Debug, PartialEq, Eq)]
pub struct StmtArgs {
    pub args: Vec<Value>,
    pub named_args: Vec<NamedArg>,
}

impl StmtArgs {
    pub fn empty() -> (r: Self)
        ensures
            r.args@.len() == 0,
            r.named_args@.len() == 0,
    {
        StmtArgs { args: Vec::new(), named_args: Vec::new() }
    }
}

// ---------------------------------------------------------------------------
// Values
// ---------------------------------------------------------------------------

/// A value as SQLite stores it.
#[derive(Debug, PartialEq, Eq)]
pub enum Cell {
    Null,
    Integer(i64),
    /// The IEEE 754 bits of a double.
    Real(u64),
    /// The bytes of a text; SQLite does not hold them to UTF-8.
    Text(Vec<u8>),
    Blob(Vec<u8>),
}

/// The Hrana value that a stored value is sent as.
pub open spec fn cell_datum(cell: Cell) -> Datum {
    match cell {
        Cell::Null => Datum::Null,
        Cell::Integer(i) => Datum::Integer(i),
        Cell::Real(bits) => Datum::Float(bits),
        Cell::Text(b) => Datum::Text(lossy_text(b@)),
        Cell::Blob(b) => Datum::Blob(b@),
    }
}

/// The Hrana value of a text that was read.
pub fn text_value(text: String) -> (r: Value)
    ensures
        r@ == Datum::Text(text@),
{
    Value::Text { value: text }
}

/// The Hrana value that a stored value is sent as.
pub fn value_ref_to_hrana(cell: Cell) -> (r: Value)
    ensures
        r@ == cell_datum(cell),
        cell matches Cell::Text(b) ==> (valid_utf8(b@) ==> r@ == Datum::Text(decode_utf8(b@))),
{
    match cell {
        Cell::Null => Value::Null,
        Cell::Integer(i) => Value::Integer { value: i },
        Cell::Real(bits) => Value::Float { value: bits },
        Cell::Text(b) => text_value(utf8_text_lossy(b.as_slice())),
        Cell::Blob(b) => Value::Blob { value: b },
    }
}

/// Whether a stored value is what a Hrana value is bound as.
pub open spec fn binds(cell: Cell, v: Datum) -> bool {
    match v {
        Datum::Unset => cell is Null,
        Datum::Null => cell is Null,
        Datum::Integer(i) => cell == Cell::Integer(i),
        Datum::Float(bits) => cell == Cell::Real(bits),
        Datum::Text(s) => cell is Text && cell->Text_0@ == encode_utf8(s),
        Datum::Blob(b) => cell is Blob && cell->Blob_0@ == b,
    }
}

/// What a Hrana value is bound as. A value that is bound and read again is the
/// same value.
pub fn bound_cell(v: &Value) -> (r: Cell)
    ensures
        binds(r, v@),
        r matches Cell::Text(b) ==> valid_utf8(b@) && v@ == Datum::Text(decode_utf8(b@)),
        r !is Text && v@ !is Unset ==> cell_datum(r) == v@,
{
    match v {
        Value::Unset => Cell::Null,
        Value::Null => Cell::Null,
        Value::Integer { value } => Cell::Integer(*value),
        Value::Float { value } => Cell::Real(*value),
        Value::Text { value } => {
            proof {
                vstd::utf8::encode_utf8_valid_utf8(value@);
                vstd::utf8::encode_utf8_decode_utf8(value@);
            }
            Cell::Text(vstd::slice::slice_to_vec(value.as_str().as_bytes()))
        },
        Value::Blob { value } => Cell::Blob(vstd::slice::slice_to_vec(value.as_slice())),
    }
}

// ---------------------------------------------------------------------------
// Before a statement runs
// ---------------------------------------------------------------------------

/// Why a statement is not run at all, if it is not: behind white space and
/// comments it starts with `ATTACH`, in any case.
pub open spec fn statement_refusal(sql: Seq<char>) -> Option<Failure> {
    if leads(skip_blank(sql), "ATTACH"@) {
        Some(Failure { code: "SQLITE_MISUSE"@, message: "ATTACH DATABASE is not supported"@ })
    } else {
        None
    }
}

/// Refuses statements that are not supported, whatever white space and comments
/// stand before them.
pub fn check_statement(sql: &str) -> (r: Result<(), StmtError>)
    ensures
        match statement_refusal(sql@) {
            Some(f) => r matches Err(e) && e@ == f,
            None => r is Ok,
        },
{
    let chars = chars_of(sql);
    assert(chars@.skip(0) =~= chars@);
    let start: usize = skip_blank_at(chars.as_slice(), 0);
    if leads_at(chars.as_slice(), start, "ATTACH") {
        return Err(StmtError::new("SQLITE_MISUSE", "ATTACH DATABASE is not supported"));
    }
    Ok(())
}

/// What a failure to prepare means to the client. `multiple` tells that the
/// text holds more than one statement.
pub open spec fn prepare_failure(multiple: bool, e: SqliteError) -> Failure {
    if multiple {
        Failure {
            code: "SQLITE_MISUSE"@,
            message: "SQL string contains more than one statement"@,
        }
    } else {
        Failure { code: sqlite_code(e), message: sqlite_message(e) }
    }
}

pub fn prepare_error(multiple: bool, e: &SqliteError) -> (r: StmtError)
    ensures
        r@ == prepare_failure(multiple, *e),
{
    if multiple {
        StmtError::new("SQLITE_MISUSE", "SQL string contains more than one statement")
    } else {
        StmtError::from_sqlite(e)
    }
}

// ---------------------------------------------------------------------------
// Arguments
// ---------------------------------------------------------------------------

/// Which argument a parameter takes.
#[derive(Clone, Copy, Debug, PartialEq, Eq, Structural)]
pub enum Bound {
    /// The positional argument of that index.
    Positional(usize),
    /// The named argument of that index.
    Named(usize),
}

pub open spec fn arg_names(named: Seq<NamedArg>) -> Seq<Seq<char>> {
    named.map_values(|a: NamedArg| a.name@)
}

pub open spec fn param_names(names: Seq<Option<String>>) -> Seq<Option<Seq<char>>> {
    names.map_values(
        |n: Option<String>|
            match n {
                Some(s) => Some(s@),
                None => None,
            },
    )
}

/// Where `x` last stands in `items`.
pub open spec fn last_position(items: Seq<Seq<char>>, x: Seq<char>) -> Option<usize>
    decreases items.len(),
{
    if items.len() == 0 {
        None
    } else if items.last() == x {
        Some((items.len() - 1) as usize)
    } else {
        last_position(items.drop_last(), x)
    }
}

/// The name of a parameter without the sign before it.
pub open spec fn bare_name(name: Seq<char>) -> Seq<char> {
    if name.len() == 0 {
        name
    } else {
        name.skip(1)
    }
}

/// The argument of the parameter at `index` (from 0): a numbered one takes the
/// positional argument of its number, a named one the last argument of that
/// name, with or without the sign before it, and one without a name the
/// positional argument at its own place. `None` where there is no such
/// argument.
pub open spec fn argument_of(
    index: nat,
    name: Option<Seq<char>>,
    count: nat,
    names: Seq<Seq<char>>,
) -> Result<Option<Bound>, Failure> {
    match name {
        Some(name) => if name.len() > 0 && name[0] == '?' {
            match unsigned_value(name.skip(1)) {
                Some(pos) => if pos == 0 || pos > count {
                    Ok(None)
                } else {
                    Ok(Some(Bound::Positional((pos - 1) as usize)))
                },
                None => Err(
                    Failure {
                        code: "SQLITE_MISUSE"@,
                        message: "invalid parameter "@ + name
                            + ": expected a numerical position after `?`"@,
                    },
                ),
            }
        } else {
            match last_position(names, name) {
                Some(i) => Ok(Some(Bound::Named(i))),
                None => match last_position(names, bare_name(name)) {
                    Some(i) => Ok(Some(Bound::Named(i))),
                    None => Ok(None),
                },
            }
        },
        None => if index < count {
            Ok(Some(Bound::Positional(index as usize)))
        } else {
            Ok(None)
        },
    }
}

/// What a client is told of a parameter that got no value.
pub open spec fn missing_value(index: nat, name: Option<Seq<char>>) -> Failure {
    Failure {
        code: "SQLITE_MISUSE"@,
        message: "value for parameter "@ + match name {
            Some(name) => name,
            None => decimal(index + 1),
        } + " not found"@,
    }
}

/// The arguments of the parameters in turn, up to the first that has none.
pub open spec fn arguments_of(
    params: Seq<Option<Seq<char>>>,
    count: nat,
    names: Seq<Seq<char>>,
) -> Result<Seq<Bound>, Failure>
    decreases params.len(),
{
    if params.len() == 0 {
        Ok(seq![])
    } else {
        let index = (params.len() - 1) as nat;
        match arguments_of(params.drop_last(), count, names) {
            Err(f) => Err(f),
            Ok(before) => match argument_of(index, params.last(), count, names) {
                Err(f) => Err(f),
                Ok(Some(bound)) => Ok(before.push(bound)),
                Ok(None) => Err(missing_value(index, params.last())),
            },
        }
    }
}

/// What is bound to a statement's parameters.
pub open spec fn binding(
    params: Seq<Option<Seq<char>>>,
    count: nat,
    names: Seq<Seq<char>>,
) -> Result<Seq<Bound>, Failure> {
    if count > 0 && names.len() > 0 {
        Err(
            Failure {
                code: "SQLITE_MISUSE"@,
                message: "Specifying both positional and named arguments is not supported"@,
            },
        )
    } else if count > params.len() {
        Err(
            Failure {
                code: "SQLITE_MISUSE"@,
                message: "too many parameters, expected "@ + decimal(params.len()) + " found "@
                    + decimal(count),
            },
        )
    } else {
        arguments_of(params, count, names)
    }
}

fn find_last(named: &Vec<NamedArg>, x: &str) -> (r: Option<usize>)
    ensures
        r == last_position(arg_names(named@), x@),
        r matches Some(i) ==> i < named@.len(),
{
    let ghost all = arg_names(named@);
    let mut i: usize = named.len();
    assert(all.take(all.len() as int) =~= all);
    while i > 0
        invariant
            i <= named@.len(),
            all == arg_names(named@),
            last_position(all.take(i as int), x@) == last_position(all, x@),
        decreases i,
    {
        assert(all.take(i as int).last() == named@[i - 1].name@);
        if same_text(named[i - 1].name.as_str(), x) {
            return Some(i - 1);
        }
        assert(all.take(i as int).drop_last() =~= all.take(i - 1));
        i = i - 1;
    }
    assert(all.take(0) =~= seq![]);
    None
}

fn find_argument(index: usize, name: &Option<String>, args: &StmtArgs) -> (r: Result<
    Option<Bound>,
    StmtError,
>)
    ensures
        match argument_of(
            index as nat,
            match name {
                Some(s) => Some(s@),
                None => None,
            },
            args.args@.len(),
            arg_names(args.named_args@),
        ) {
            Ok(bound) => r == Ok::<_, StmtError>(bound),
            Err(f) => r matches Err(e) && e@ == f,
        },
{
    match name {
        Some(name) => {
            let chars = chars_of(name.as_str());
            let bare: String = if chars.len() == 0 {
                String::new()
            } else {
                text_of(vstd::slice::slice_subrange(chars.as_slice(), 1, chars.len()))
            };
            assert(bare@ =~= bare_name(name@));
            if chars.len() > 0 && chars[0] == '?' {
                match parse_u64(bare.as_str()) {
                    Some(pos) => {
                        if pos == 0 || pos > args.args.len() as u64 {
                            Ok(None)
                        } else {
                            Ok(Some(Bound::Positional((pos - 1) as usize)))
                        }
                    },
                    None => {
                        let mut message = "invalid parameter ".to_owned();
                        message.append(name.as_str());
                        message.append(": expected a numerical position after `?`");
                        Err(StmtError::new("SQLITE_MISUSE", message.as_str()))
                    },
                }
            } else {
                match find_last(&args.named_args, name.as_str()) {
                    Some(i) => Ok(Some(Bound::Named(i))),
                    None => match find_last(&args.named_args, bare.as_str()) {
                        Some(i) => Ok(Some(Bound::Named(i))),
                        None => Ok(None),
                    },
                }
            }
        },
        None => if index < args.args.len() {
            Ok(Some(Bound::Positional(index)))
        } else {
            Ok(None)
        },
    }
}

/// Which argument each of a statement's parameters takes. `names` are the
/// parameters' names, where they have one. Positional arguments bind to
/// parameters in order, named ones by name. A parameter left without a value
/// is an error.
pub fn bind_args(names: &Vec<Option<String>>, args: &StmtArgs) -> (r: Result<Vec<Bound>, StmtError>)
    ensures
        match binding(param_names(names@), args.args@.len(), arg_names(args.named_args@)) {
            Ok(bounds) => r matches Ok(v) && v@ == bounds,
            Err(f) => r matches Err(e) && e@ == f,
        },
{
    let ghost params = param_names(names@);
    let ghost count = args.args@.len();
    let ghost named = arg_names(args.named_args@);
    if args.args.len() > 0 && args.named_args.len() > 0 {
        return Err(
            StmtError::new(
                "SQLITE_MISUSE",
                "Specifying both positional and named arguments is not supported",
            ),
        );
    }
    if args.args.len() > names.len() {
        let mut message = "too many parameters, expected ".to_owned();
        push_decimal(&mut message, names.len() as u64);
        message.append(" found ");
        push_decimal(&mut message, args.args.len() as u64);
        return Err(StmtError::new("SQLITE_MISUSE", message.as_str()));
    }
    let mut bounds: Vec<Bound> = Vec::new();
    let mut i: usize = 0;
    assert(params.take(0) =~= seq![]);
    while i < names.len()
        invariant
            i <= names@.len(),
            params == param_names(names@),
            count == args.args@.len(),
            named == arg_names(args.named_args@),
            binding(params, count, named) == arguments_of(params, count, named),
            arguments_of(params.take(i as int), count, named) == Ok::<Seq<Bound>, Failure>(
                bounds@,
            ),
        decreases names@.len() - i,
    {
        proof {
            assert(params.take(i + 1).drop_last() =~= params.take(i as int));
            assert(params.take(i + 1).last() == params[i as int]);
            arguments_fail(params, count, named, i + 1);
        }
        match find_argument(i, &names[i], args) {
            Err(e) => {
                return Err(e);
            },
            Ok(Some(bound)) => {
                bounds.push(bound);
            },
            Ok(None) => {
                let mut message = "value for parameter ".to_owned();
                match &names[i] {
                    Some(name) => {
                        message.append(name.as_str());
                    },
                    None => {
                        push_decimal(&mut message, i as u64 + 1);
                    },
                }
                message.append(" not found");
                return Err(StmtError::new("SQLITE_MISUSE", message.as_str()));
            },
        }
        i = i + 1;
    }
    assert(params.take(i as int) =~= params);
    Ok(bounds)
}

proof fn arguments_fail(
    params: Seq<Option<Seq<char>>>,
    count: nat,
    names: Seq<Seq<char>>,
    n: int,
)
    requires
        0 <= n <= params.len(),
    ensures
        arguments_of(params.take(n), count, names) matches Err(f) ==> arguments_of(
            params,
            count,
            names,
        ) == Err::<Seq<Bound>, _>(f),
    decreases params.len() - n,
{
    if n < params.len() {
        assert(params.take(n + 1).drop_last() =~= params.take(n));
        arguments_fail(params, count, names, n + 1);
    } else {
        assert(params.take(n) =~= params);
    }
}

/// What is bound is there, and every parameter gets a value.
pub proof fn binding_is_complete(
    params: Seq<Option<Seq<char>>>,
    count: nat,
    names: Seq<Seq<char>>,
)
    requires
        count <= usize::MAX,
        names.len() <= usize::MAX,
    ensures
        binding(params, count, names) matches Ok(bounds) ==> bounds.len() == params.len() && forall|
            i: int,
        |
            0 <= i < bounds.len() ==> match #[trigger] bounds[i] {
                Bound::Positional(k) => k < count,
                Bound::Named(k) => k < names.len(),
            },
{
    arguments_complete(params, count, names);
}

proof fn arguments_complete(params: Seq<Option<Seq<char>>>, count: nat, names: Seq<Seq<char>>)
    requires
        count <= usize::MAX,
        names.len() <= usize::MAX,
    ensures
        arguments_of(params, count, names) matches Ok(bounds) ==> bounds.len() == params.len()
            && forall|i: int|
            0 <= i < bounds.len() ==> match #[trigger] bounds[i] {
                Bound::Positional(k) => k < count,
                Bound::Named(k) => k < names.len(),
            },
    decreases params.len(),
{
    if params.len() > 0 {
        arguments_complete(params.drop_last(), count, names);
        if let Some(name) = params.last() {
            last_position_bound(names, name);
            last_position_bound(names, bare_name(name));
        }
    }
}

proof fn last_position_bound(items: Seq<Seq<char>>, x: Seq<char>)
    requires
        items.len() <= usize::MAX,
    ensures
        last_position(items, x) matches Some(i) ==> i < items.len() && items[i as int] == x,
    decreases items.len(),
{
    if items.len() > 0 && items.last() != x {
        last_position_bound(items.drop_last(), x);
    }
}

// ---------------------------------------------------------------------------
// After a statement ran
// ---------------------------------------------------------------------------

/// What a statement gave that changed `changed` rows, the last of them inserted
/// under `last_rowid`.
pub open spec fn result_of(
    cols: Vec<Col>,
    rows: Vec<Row>,
    changed: u64,
    last_rowid: i64,
    query_duration_ms: u64,
) -> StmtResult {
    StmtResult {
        cols,
        rows,
        affected_row_count: changed,
        last_insert_rowid: if changed > 0 {
            Some(last_rowid)
        } else {
            None
        },
        replication_index: None,
        rows_read: 0,
        rows_written: changed,
        query_duration_ms,
    }
}

/// The result of a statement that changed `changed` rows, the last of them
/// inserted under `last_rowid`. Rows count as inserted only where any changed.
pub fn stmt_result(
    cols: Vec<Col>,
    rows: Vec<Row>,
    changed: u64,
    last_rowid: i64,
    query_duration_ms: u64,
) -> (r: StmtResult)
    ensures
        r == result_of(cols, rows, changed, last_rowid, query_duration_ms),
{
    StmtResult {
        cols,
        rows,
        affected_row_count: changed,
        last_insert_rowid: if changed > 0 {
            Some(last_rowid)
        } else {
            None
        },
        replication_index: None,
        rows_read: 0,
        rows_written: changed,
        query_duration_ms,
    }
}

/// What a description of a statement tells.
pub open spec fn described(
    sql: Seq<char>,
    params: Vec<DescribeParam>,
    cols: Vec<DescribeCol>,
    is_readonly: bool,
) -> DescribeResult {
    DescribeResult {
        params,
        cols,
        is_explain: starts_with_word(sql, "EXPLAIN"@),
        is_readonly,
    }
}

/// Describes a statement: its parameters' names, its result columns, and
/// whether it is read-only or only explains.
pub fn describe(
    sql: &str,
    params: Vec<DescribeParam>,
    cols: Vec<DescribeCol>,
    is_readonly: bool,
) -> (r: DescribeResult)
    ensures
        r == described(sql@, params, cols, is_readonly),
{
    DescribeResult { params, cols, is_explain: starts_with(sql, "EXPLAIN"), is_readonly }
}

// ---------------------------------------------------------------------------
// Sequences of statements
// ---------------------------------------------------------------------------

/// `s` without white space at either end.
pub open spec fn trim(s: Seq<char>) -> Seq<char> {
    trim_end(trim_start(s))
}

/// The first `n` bytes of a text.
pub open spec fn first_bytes(s: Seq<char>, n: int) -> Seq<char> {
    decode_utf8(encode_utf8(s).subrange(0, n))
}

/// What follows the first `n` bytes of a text.
pub open spec fn after_bytes(s: Seq<char>, n: int) -> Seq<char> {
    let bytes = encode_utf8(s);
    decode_utf8(bytes.subrange(n, bytes.len() as int))
}

/// What SQLite's parser made of the start of a text.
#[derive(Debug, PartialEq, Eq)]
pub enum Prepared {
    /// No statement: only comments or nothing.
    Nothing,
    /// A statement that takes so many bytes; `text` is the parser's own copy
    /// of it.
    Statement { consumed: usize, text: Option<String> },
}

/// A text that is being split into statements.
#[verifier::ext_equal]
pub struct Split {
    pub rest: Seq<char>,
    pub out: Seq<Seq<char>>,
}

impl Split {
    /// A statement was split off; one of white space alone does not count.
    pub open spec fn found(self, stmt: Seq<char>) -> Split {
        let stmt = trim(stmt);
        if stmt.len() == 0 {
            self
        } else {
            Split { out: self.out.push(stmt), ..self }
        }
    }
}

/// How many bytes of the text were taken: never more than there are.
pub open spec fn taken(rest: Seq<char>, consumed: usize) -> int {
    if consumed < encode_utf8(rest).len() {
        consumed as int
    } else {
        encode_utf8(rest).len() as int
    }
}

/// The state after the parser has seen the text, and whether to go on. A
/// parser that took no bytes is at its end; its own copy of the statement
/// counts.
pub open spec fn split_step(state: Split, prepared: Prepared) -> (Split, bool) {
    match prepared {
        Prepared::Nothing => (state, false),
        Prepared::Statement { consumed, text } => {
            let n = taken(state.rest, consumed);
            if n > 0 {
                (
                    Split {
                        rest: after_bytes(state.rest, n),
                        ..state.found(first_bytes(state.rest, n))
                    },
                    true,
                )
            } else {
                match text {
                    Some(text) => (state.found(text@), false),
                    None => (state, false),
                }
            }
        },
    }
}

/// Splits a text into its statements, by what SQLite's parser says of its
/// start.
pub struct Splitter {
    rest: String,
    out: Vec<String>,
}

impl View for Splitter {
    type V = Split;

    closed spec fn view(&self) -> Split {
        Split { rest: self.rest@, out: views(self.out@) }
    }
}

fn trimmed(s: &str) -> (r: String)
    ensures
        r@ == trim(s@),
{
    let chars = chars_of(s);
    assert(chars@.skip(0) =~= chars@);
    let from: usize = skip_space(chars.as_slice(), 0);
    let tail = vstd::slice::slice_subrange(chars.as_slice(), from, chars.len());
    assert(tail@ =~= chars@.skip(from as int));
    let to: usize = skip_space_back(tail, tail.len());
    assert(tail@.take(tail@.len() as int) =~= tail@);
    let r = text_of(vstd::slice::slice_subrange(tail, 0, to));
    assert(r@ =~= tail@.take(to as int));
    r
}

impl Splitter {
    pub fn new(sql: &str) -> (r: Self)
        ensures
            r@ == (Split { rest: sql@, out: seq![] }),
    {
        let r = Splitter { rest: sql.to_owned(), out: Vec::new() };
        assert(r@.out =~= seq![]);
        r
    }

    /// The text whose start is to be parsed next, without leading white space;
    /// none where nothing is left.
    pub fn pending(&mut self) -> (r: Option<String>)
        ensures
            final(self)@ == (Split { rest: trim_start(old(self)@.rest), ..old(self)@ }),
            match r {
                Some(text) => text@ == final(self)@.rest && final(self)@.rest.len() > 0,
                None => final(self)@.rest.len() == 0,
            },
    {
        let chars = chars_of(self.rest.as_str());
        assert(chars@.skip(0) =~= chars@);
        let from: usize = skip_space(chars.as_slice(), 0);
        let tail = vstd::slice::slice_subrange(chars.as_slice(), from, chars.len());
        assert(tail@ =~= chars@.skip(from as int));
        self.rest = text_of(tail);
        if tail.len() == 0 {
            None
        } else {
            Some(self.rest.clone())
        }
    }

    /// Takes what the parser made of the text; tells whether to go on.
    pub fn prepared(&mut self, outcome: Prepared) -> (r: bool)
        requires
            outcome matches Prepared::Statement { consumed, .. } ==> is_char_boundary(
                encode_utf8(old(self)@.rest),
                taken(old(self)@.rest, consumed),
            ),
        ensures
            (final(self)@, r) == split_step(old(self)@, outcome),
    {
        match outcome {
            Prepared::Nothing => false,
            Prepared::Statement { consumed, text } => {
                let len: usize = self.rest.as_str().as_bytes().len();
                let n: usize = if consumed < len {
                    consumed
                } else {
                    len
                };
                if n > 0 {
                    let ghost before = self@;
                    let (head, tail) = self.rest.as_str().split_at(n);
                    proof {
                        vstd::utf8::encode_utf8_decode_utf8(head@);
                        vstd::utf8::encode_utf8_decode_utf8(tail@);
                    }
                    let stmt = trimmed(head);
                    let rest = tail.to_owned();
                    if stmt.as_str().as_bytes().len() > 0 {
                        assert(stmt@.len() > 0);
                        self.out.push(stmt);
                    } else {
                        assert(stmt@.len() == 0) by {
                            if stmt@.len() > 0 {
                                vstd::utf8::encode_utf8_first_scalar(stmt@);
                            }
                        }
                    }
                    self.rest = rest;
                    true
                } else {
                    if let Some(text) = text {
                        let stmt = trimmed(text.as_str());
                        if stmt.as_str().as_bytes().len() > 0 {
                            assert(stmt@.len() > 0);
                            self.out.push(stmt);
                        } else {
                            assert(stmt@.len() == 0) by {
                                if stmt@.len() > 0 {
                                    vstd::utf8::encode_utf8_first_scalar(stmt@);
                                }
                            }
                        }
                    }
                    false
                }
            },
        }
    }

    /// The statements that were split off, in order.
    pub fn statements(self) -> (r: Vec<String>)
        ensures
            views(r@) == self@.out,
    {
        self.out
    }
}

/// A text whose statements are run one after the other.
#[verifier::ext_equal]
pub struct Ran {
    /// What is left of the text, and the statements that were split off it.
    pub split: Split,
    /// Whether the last of these still is to run.
    pub waiting: bool,
    /// Whether nothing more is to be split off.
    pub over: bool,
    /// What a statement failed with, if one did.
    pub failure: Option<Failure>,
}

impl Ran {
    /// The text whose start is to be parsed next: none once a statement failed or
    /// nothing more is to be split off.
    pub open spec fn next_text(self) -> Option<Seq<char>> {
        let rest = trim_start(self.split.rest);
        if self.over || self.failure is Some || rest.len() == 0 {
            None
        } else {
            Some(rest)
        }
    }

    /// The statement that was to run has run, and failed where `failure` says
    /// so.
    pub open spec fn done(self, failure: Option<Failure>) -> Ran {
        Ran {
            waiting: false,
            failure: match failure {
                Some(f) => Some(f),
                None => self.failure,
            },
            ..self
        }
    }

    /// What the parser made of the start of the text: a statement to run, an
    /// end or a failure.
    pub open spec fn parsed(self, outcome: Result<Prepared, StmtError>) -> Ran {
        match outcome {
            Ok(outcome) => {
                let (split, more) = split_step(self.split, outcome);
                Ran {
                    split,
                    waiting: split.out.len() > self.split.out.len(),
                    over: !more,
                    ..self
                }
            },
            Err(e) => Ran { failure: Some(e@), ..self },
        }
    }
}

/// Runs the statements of a text in order: each is split off when those before
/// it have run, so that it sees what they did. The first failure ends the
/// sequence, and what follows is skipped.
pub struct Sequence {
    splitter: Splitter,
    waiting: bool,
    over: bool,
    failure: Option<StmtError>,
}

impl View for Sequence {
    type V = Ran;

    closed spec fn view(&self) -> Ran {
        Ran {
            split: self.splitter@,
            waiting: self.waiting,
            over: self.over,
            failure: match self.failure {
                Some(e) => Some(e@),
                None => None,
            },
        }
    }
}

impl Sequence {
    pub fn new(sql: &str) -> (r: Self)
        ensures
            r@ == (Ran {
                split: Split { rest: sql@, out: seq![] },
                waiting: false,
                over: false,
                failure: None,
            }),
    {
        Sequence { splitter: Splitter::new(sql), waiting: false, over: false, failure: None }
    }

    /// The text whose start is to be parsed next, without leading white space;
    /// none where the sequence is over.
    pub fn pending(&mut self) -> (r: Option<String>)
        requires
            !old(self)@.waiting,
        ensures
            match old(self)@.next_text() {
                Some(text) => r matches Some(t) && t@ == text,
                None => r is None,
            },
            final(self)@ == (if old(self)@.over || old(self)@.failure is Some {
                old(self)@
            } else {
                let rest = trim_start(old(self)@.split.rest);
                Ran { split: Split { rest, ..old(self)@.split }, ..old(self)@ }
            }),
    {
        if self.over || self.failure.is_some() {
            return None;
        }
        self.splitter.pending()
    }

    /// Takes what the parser made of that text. The result is the statement to
    /// run next, if there is one.
    pub fn prepared(&mut self, outcome: Result<Prepared, StmtError>) -> (r: Option<String>)
        requires
            outcome matches Ok(Prepared::Statement { consumed, .. }) ==> is_char_boundary(
                encode_utf8(old(self)@.split.rest),
                taken(old(self)@.split.rest, consumed),
            ),
            !old(self)@.waiting,
        ensures
            final(self)@ == old(self)@.parsed(outcome),
            match r {
                Some(stmt) => final(self)@.waiting && stmt@ == final(self)@.split.out.last(),
                None => !final(self)@.waiting,
            },
    {
        match outcome {
            Ok(outcome) => {
                let before: usize = self.splitter.out.len();
                self.over = !self.splitter.prepared(outcome);
                let after: usize = self.splitter.out.len();
                self.waiting = after > before;
                if self.waiting {
                    let stmt = self.splitter.out[after - 1].clone();
                    Some(stmt)
                } else {
                    None
                }
            },
            Err(e) => {
                self.failure = Some(e);
                None
            },
        }
    }

    /// The statement ran, and gave that.
    pub fn ran(&mut self, outcome: Result<StmtResult, StmtError>)
        requires
            old(self)@.waiting,
        ensures
            final(self)@ == old(self)@.done(
                match outcome {
                    Ok(_) => None,
                    Err(e) => Some(e@),
                },
            ),
    {
        self.waiting = false;
        if let Err(e) = outcome {
            self.failure = Some(e);
        }
    }

    /// What came of the sequence: the failure of the statement that failed.
    pub fn finish(self) -> (r: Result<(), StmtError>)
        ensures
            match self@.failure {
                Some(f) => r is Err && r->Err_0@ == f,
                None => r is Ok,
            },
    {
        match self.failure {
            Some(e) => Err(e),
            None => Ok(()),
        }
    }
}

/// A statement is split off what the statements before it left of the text,
/// and only once those have run: while one waits, the next is not known.
pub proof fn statements_run_in_turn(state: Ran, outcome: Result<Prepared, StmtError>)
    requires
        !state.waiting,
    ensures
        ({
            let next = state.parsed(outcome);
            &&& next.split.out.len() <= state.split.out.len() + 1
            &&& next.split.out.take(state.split.out.len() as int) == state.split.out
            &&& next.waiting == (next.split.out.len() == state.split.out.len() + 1)
        }),
{
    let next = state.parsed(outcome);
    assert(next.split.out.take(state.split.out.len() as int) =~= state.split.out);
}

/// Splitting loses nothing: what is split off and what is left make up the
/// text.
pub proof fn split_is_whole(s: Seq<char>, n: int)
    requires
        is_char_boundary(encode_utf8(s), n),
    ensures
        first_bytes(s, n) + after_bytes(s, n) == s,
{
    let bytes = encode_utf8(s);
    vstd::utf8::encode_utf8_valid_utf8(s);
    vstd::utf8::encode_utf8_decode_utf8(s);
    vstd::utf8::decode_utf8_split(bytes, n);
}

} // verus!
