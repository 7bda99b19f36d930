//! Texts of several statements: each of them runs, in order and as it was
//! written, until one fails; and what a statement is said to have done.

use crate::error::{sqlite_code, sqlite_message, ErrorCode, Failure, SqliteError, StmtError};
use crate::executor::{
    after_bytes, described, first_bytes, prepare_failure, result_of, split_is_whole, split_step,
    taken, trim, Prepared, Ran, Split,
};
use crate::hrana::proto::{Col, DescribeCol, DescribeParam, Row};
use crate::laws::statements::spells;
use crate::sql::{is_space, leads, trim_end, trim_start, upper, uppercase};
use vstd::prelude::*;
use vstd::utf8::{encode_utf8, is_char_boundary};

verus! {

pub open spec fn all_space(s: Seq<char>) -> bool {
    forall|i: int| 0 <= i < s.len() ==> is_space(#[trigger] s[i])
}

proof fn leading_space_goes(space: Seq<char>, text: Seq<char>)
    requires
        all_space(space),
        text.len() > 0 ==> !is_space(text[0]),
    ensures
        trim_start(space + text) == text,
    decreases space.len(),
{
    let s = space + text;
    if space.len() == 0 {
        assert(s =~= text);
    } else {
        assert(s[0] == space[0]);
        let fewer = space.skip(1);
        assert forall|i: int| 0 <= i < fewer.len() implies is_space(#[trigger] fewer[i]) by {
            assert(fewer[i] == space[i + 1]);
        }
        leading_space_goes(fewer, text);
        assert(s.skip(1) =~= fewer + text);
    }
}

proof fn trailing_space_goes(text: Seq<char>, space: Seq<char>)
    requires
        all_space(space),
        text.len() > 0 ==> !is_space(text.last()),
    ensures
        trim_end(text + space) == text,
    decreases space.len(),
{
    let s = text + space;
    if space.len() == 0 {
        assert(s =~= text);
    } else {
        assert(s.last() == space[space.len() - 1]);
        let fewer = space.drop_last();
        assert forall|i: int| 0 <= i < fewer.len() implies is_space(#[trigger] fewer[i]) by {
            assert(fewer[i] == space[i]);
        }
        trailing_space_goes(text, fewer);
        assert(s.drop_last() =~= text + fewer);
    }
}

/// A text is trimmed of the white space around it, and of nothing else.
pub proof fn texts_are_trimmed(before: Seq<char>, text: Seq<char>, after: Seq<char>)
    requires
        all_space(before),
        all_space(after),
        text.len() > 0 ==> !is_space(text[0]) && !is_space(text.last()),
    ensures
        trim(before + text + after) == text,
{
    if text.len() > 0 {
        assert(before + text + after =~= before + (text + after));
        leading_space_goes(before, text + after);
        trailing_space_goes(text, after);
    } else {
        let all = before + after;
        assert(before + text + after =~= all + text);
        assert forall|i: int| 0 <= i < all.len() implies is_space(#[trigger] all[i]) by {
            if i < before.len() {
                assert(all[i] == before[i]);
            } else {
                assert(all[i] == after[i - before.len()]);
            }
        }
        leading_space_goes(all, text);
        assert(trim_end(text) == text);
    }
}

/// A statement that the parser finds at the start of the text is split off it:
/// what is split off and what is left make up the text, and the statement, as it
/// was written but for white space around it, is the next to run. One of white
/// space alone is passed over.
pub proof fn statements_are_split_off(
    state: Split,
    consumed: usize,
    text: Option<String>,
    before: Seq<char>,
    stmt: Seq<char>,
    after: Seq<char>,
)
    requires
        0 < consumed <= encode_utf8(state.rest).len(),
        is_char_boundary(encode_utf8(state.rest), consumed as int),
        first_bytes(state.rest, consumed as int) == before + stmt + after,
        all_space(before),
        all_space(after),
        stmt.len() > 0 ==> !is_space(stmt[0]) && !is_space(stmt.last()),
    ensures
        ({
            let (next, more) = split_step(state, Prepared::Statement { consumed, text });
            &&& more
            &&& before + stmt + after + next.rest == state.rest
            &&& stmt.len() > 0 ==> next.out == state.out.push(stmt)
            &&& stmt.len() == 0 ==> next.out == state.out
        }),
{
    texts_are_trimmed(before, stmt, after);
    split_is_whole(state.rest, consumed as int);
}

/// Where the parser finds nothing more the sequence ends with what was split off
/// so far; where it took no bytes, its own copy of the statement is the last.
pub proof fn splitting_ends(state: Split, text: Option<String>)
    ensures
        split_step(state, Prepared::Nothing) == (state, false),
        ({
            let (next, more) = split_step(state, Prepared::Statement { consumed: 0, text });
            &&& !more
            &&& next.rest == state.rest
            &&& text is None ==> next.out == state.out
            &&& text matches Some(t) ==> (trim(t@).len() > 0 ==> next.out == state.out.push(
                trim(t@),
            ))
        }),
{
}

/// What the parser says of the text leads to the statement that is to run, to
/// the end of the sequence, or to its failure: a text that it refuses fails the
/// sequence and runs nothing.
pub proof fn sequences_run_what_is_split_off(state: Ran, outcome: Prepared, e: StmtError)
    requires
        !state.waiting,
    ensures
        ({
            let next = state.parsed(Ok(outcome));
            let (split, more) = split_step(state.split, outcome);
            &&& next.split == split
            &&& next.over == !more
            &&& next.failure == state.failure
            &&& next.waiting <==> split.out.len() == state.split.out.len() + 1
        }),
        state.parsed(Err(e)).failure == Some(e@),
        state.parsed(Err(e)).split == state.split,
        !state.parsed(Err(e)).waiting,
{
}

/// A sequence goes on behind a statement that ran, with what is left of the text
/// but for the white space before it; a statement that failed ends it with its
/// failure, and nothing of the rest is parsed or run.
pub proof fn the_first_failure_ends_a_sequence(
    state: Ran,
    f: Failure,
    space: Seq<char>,
    rest: Seq<char>,
)
    requires
        all_space(space),
        rest.len() > 0 ==> !is_space(rest[0]),
        state.split.rest == space + rest,
    ensures
        state.done(Some(f)).failure == Some(f),
        state.done(Some(f)).next_text() is None,
        state.done(None).failure == state.failure,
        state.done(None).split == state.split,
        state.done(None).over == state.over,
        !state.done(None).waiting,
        state.failure is None && !state.over && rest.len() > 0 ==> state.done(None).next_text()
            == Some(rest),
        rest.len() == 0 ==> state.done(None).next_text() is None,
        state.over ==> state.done(None).next_text() is None,
{
    leading_space_goes(space, rest);
}

// ---------------------------------------------------------------------------
// What is told of a statement
// ---------------------------------------------------------------------------

/// A statement's result has its columns and rows, counts the rows that it
/// changed, and names the row inserted last exactly where it changed any.
pub proof fn results_tell_what_changed(
    cols: Vec<Col>,
    rows: Vec<Row>,
    changed: u64,
    last_rowid: i64,
    query_duration_ms: u64,
)
    ensures
        ({
            let r = result_of(cols, rows, changed, last_rowid, query_duration_ms);
            &&& r.cols == cols
            &&& r.rows == rows
            &&& r.affected_row_count == changed
            &&& r.rows_written == changed
            &&& r.rows_read == 0
            &&& r.query_duration_ms == query_duration_ms
            &&& r.replication_index is None
            &&& changed == 0 ==> r.last_insert_rowid is None
            &&& changed > 0 ==> r.last_insert_rowid == Some(last_rowid)
        }),
{
}

/// A description has the statement's parameters and columns, and says that it
/// explains exactly where it starts with `EXPLAIN`, in any case, behind white
/// space.
pub proof fn descriptions_tell_of_the_statement(
    space: Seq<char>,
    text: Seq<char>,
    params: Vec<DescribeParam>,
    cols: Vec<DescribeCol>,
    is_readonly: bool,
)
    requires
        all_space(space),
        text.len() > 0 ==> !is_space(text[0]),
    ensures
        ({
            let r = described(space + text, params, cols, is_readonly);
            &&& r.params == params
            &&& r.cols == cols
            &&& r.is_readonly == is_readonly
            &&& r.is_explain <==> text.len() >= 7 && spells(text.take(7), "EXPLAIN"@)
        }),
{
    reveal_strlit("EXPLAIN");
    leading_space_goes(space, text);
    let name = "EXPLAIN"@;
    if text.len() >= 7 {
        let word = text.take(7);
        if spells(word, name) {
            assert forall|i: int| 0 <= i < 7 implies uppercase(text).take(7)[i] == name[i] by {
                assert('A' <= name[i] <= 'Z');
                assert(word[i] == text[i]);
            }
            assert(uppercase(text).take(7) =~= name);
        } else if leads(text, name) {
            assert forall|i: int| 0 <= i < 7 implies 'A' <= #[trigger] name[i] <= 'Z' && (word[i]
                == name[i] || word[i] as int == name[i] as int + 32) by {
                assert(uppercase(text).take(7)[i] == upper(text[i]));
            }
        }
    }
}

/// A failure to prepare is misuse where the text holds several statements, and
/// otherwise what SQLite says.
pub proof fn prepare_failures_say_why(e: SqliteError)
    ensures
        prepare_failure(true, e).code == "SQLITE_MISUSE"@,
        prepare_failure(false, e) == (Failure {
            code: sqlite_code(e),
            message: sqlite_message(e),
        }),
        e.detail matches Some(words) ==> sqlite_message(e) == words@,
        e.detail is None ==> sqlite_message(e) == e.text@,
{
}

/// The codes that clients see are SQLite's own names of its failures.
pub proof fn codes_are_sqlites_own(e: SqliteError)
    ensures
        e.code is None && !e.no_rows ==> sqlite_code(e) == "SQLITE_ERROR"@,
        e.code is None && e.no_rows ==> sqlite_code(e) == "SQLITE_QUERY_RETURNED_NO_ROWS"@,
        e.code == Some(ErrorCode::Unknown) ==> sqlite_code(e) == "SQLITE_UNKNOWN"@,
        e.code == Some(ErrorCode::InternalMalfunction) ==> sqlite_code(e) == "SQLITE_INTERNAL"@,
        e.code == Some(ErrorCode::PermissionDenied) ==> sqlite_code(e) == "SQLITE_PERM"@,
        e.code == Some(ErrorCode::OperationAborted) ==> sqlite_code(e) == "SQLITE_ABORT"@,
        e.code == Some(ErrorCode::DatabaseBusy) ==> sqlite_code(e) == "SQLITE_BUSY"@,
        e.code == Some(ErrorCode::DatabaseLocked) ==> sqlite_code(e) == "SQLITE_LOCKED"@,
        e.code == Some(ErrorCode::OutOfMemory) ==> sqlite_code(e) == "SQLITE_NOMEM"@,
        e.code == Some(ErrorCode::ReadOnly) ==> sqlite_code(e) == "SQLITE_READONLY"@,
        e.code == Some(ErrorCode::OperationInterrupted) ==> sqlite_code(e) == "SQLITE_INTERRUPT"@,
        e.code == Some(ErrorCode::SystemIoFailure) ==> sqlite_code(e) == "SQLITE_IOERR"@,
        e.code == Some(ErrorCode::DatabaseCorrupt) ==> sqlite_code(e) == "SQLITE_CORRUPT"@,
        e.code == Some(ErrorCode::NotFound) ==> sqlite_code(e) == "SQLITE_NOTFOUND"@,
        e.code == Some(ErrorCode::DiskFull) ==> sqlite_code(e) == "SQLITE_FULL"@,
        e.code == Some(ErrorCode::CannotOpen) ==> sqlite_code(e) == "SQLITE_CANTOPEN"@,
        e.code == Some(ErrorCode::FileLockingProtocolFailed) ==> sqlite_code(e)
            == "SQLITE_PROTOCOL"@,
        e.code == Some(ErrorCode::SchemaChanged) ==> sqlite_code(e) == "SQLITE_SCHEMA"@,
        e.code == Some(ErrorCode::TooBig) ==> sqlite_code(e) == "SQLITE_TOOBIG"@,
        e.code == Some(ErrorCode::ConstraintViolation) ==> sqlite_code(e) == "SQLITE_CONSTRAINT"@,
        e.code == Some(ErrorCode::TypeMismatch) ==> sqlite_code(e) == "SQLITE_MISMATCH"@,
        e.code == Some(ErrorCode::ApiMisuse) ==> sqlite_code(e) == "SQLITE_MISUSE"@,
        e.code == Some(ErrorCode::NoLargeFileSupport) ==> sqlite_code(e) == "SQLITE_NOLFS"@,
        e.code == Some(ErrorCode::AuthorizationForStatementDenied) ==> sqlite_code(e)
            == "SQLITE_AUTH"@,
        e.code == Some(ErrorCode::ParameterOutOfRange) ==> sqlite_code(e) == "SQLITE_RANGE"@,
        e.code == Some(ErrorCode::NotADatabase) ==> sqlite_code(e) == "SQLITE_NOTADB"@,
{
    reveal_strlit("SQLITE_");
    if let Some(code) = e.code {
        match code {
            ErrorCode::Unknown => {
                reveal_strlit("UNKNOWN");
                reveal_strlit("SQLITE_UNKNOWN");
                assert(sqlite_code(e) =~= "SQLITE_UNKNOWN"@);
            },
            ErrorCode::InternalMalfunction => {
                reveal_strlit("INTERNAL");
                reveal_strlit("SQLITE_INTERNAL");
                assert(sqlite_code(e) =~= "SQLITE_INTERNAL"@);
            },
            ErrorCode::PermissionDenied => {
                reveal_strlit("PERM");
                reveal_strlit("SQLITE_PERM");
                assert(sqlite_code(e) =~= "SQLITE_PERM"@);
            },
            ErrorCode::OperationAborted => {
                reveal_strlit("ABORT");
                reveal_strlit("SQLITE_ABORT");
                assert(sqlite_code(e) =~= "SQLITE_ABORT"@);
            },
            ErrorCode::DatabaseBusy => {
                reveal_strlit("BUSY");
                reveal_strlit("SQLITE_BUSY");
                assert(sqlite_code(e) =~= "SQLITE_BUSY"@);
            },
            ErrorCode::DatabaseLocked => {
                reveal_strlit("LOCKED");
                reveal_strlit("SQLITE_LOCKED");
                assert(sqlite_code(e) =~= "SQLITE_LOCKED"@);
            },
            ErrorCode::OutOfMemory => {
                reveal_strlit("NOMEM");
                reveal_strlit("SQLITE_NOMEM");
                assert(sqlite_code(e) =~= "SQLITE_NOMEM"@);
            },
            ErrorCode::ReadOnly => {
                reveal_strlit("READONLY");
                reveal_strlit("SQLITE_READONLY");
                assert(sqlite_code(e) =~= "SQLITE_READONLY"@);
            },
            ErrorCode::OperationInterrupted => {
                reveal_strlit("INTERRUPT");
                reveal_strlit("SQLITE_INTERRUPT");
                assert(sqlite_code(e) =~= "SQLITE_INTERRUPT"@);
            },
            ErrorCode::SystemIoFailure => {
                reveal_strlit("IOERR");
                reveal_strlit("SQLITE_IOERR");
                assert(sqlite_code(e) =~= "SQLITE_IOERR"@);
            },
            ErrorCode::DatabaseCorrupt => {
                reveal_strlit("CORRUPT");
                reveal_strlit("SQLITE_CORRUPT");
                assert(sqlite_code(e) =~= "SQLITE_CORRUPT"@);
            },
            ErrorCode::NotFound => {
                reveal_strlit("NOTFOUND");
                reveal_strlit("SQLITE_NOTFOUND");
                assert(sqlite_code(e) =~= "SQLITE_NOTFOUND"@);
            },
            ErrorCode::DiskFull => {
                reveal_strlit("FULL");
                reveal_strlit("SQLITE_FULL");
                assert(sqlite_code(e) =~= "SQLITE_FULL"@);
            },
            ErrorCode::CannotOpen => {
                reveal_strlit("CANTOPEN");
                reveal_strlit("SQLITE_CANTOPEN");
                assert(sqlite_code(e) =~= "SQLITE_CANTOPEN"@);
            },
            ErrorCode::FileLockingProtocolFailed => {
                reveal_strlit("PROTOCOL");
                reveal_strlit("SQLITE_PROTOCOL");
                assert(sqlite_code(e) =~= "SQLITE_PROTOCOL"@);
            },
            ErrorCode::SchemaChanged => {
                reveal_strlit("SCHEMA");
                reveal_strlit("SQLITE_SCHEMA");
                assert(sqlite_code(e) =~= "SQLITE_SCHEMA"@);
            },
            ErrorCode::TooBig => {
                reveal_strlit("TOOBIG");
                reveal_strlit("SQLITE_TOOBIG");
                assert(sqlite_code(e) =~= "SQLITE_TOOBIG"@);
            },
            ErrorCode::ConstraintViolation => {
                reveal_strlit("CONSTRAINT");
                reveal_strlit("SQLITE_CONSTRAINT");
                assert(sqlite_code(e) =~= "SQLITE_CONSTRAINT"@);
            },
            ErrorCode::TypeMismatch => {
                reveal_strlit("MISMATCH");
                reveal_strlit("SQLITE_MISMATCH");
                assert(sqlite_code(e) =~= "SQLITE_MISMATCH"@);
            },
            ErrorCode::ApiMisuse => {
                reveal_strlit("MISUSE");
                reveal_strlit("SQLITE_MISUSE");
                assert(sqlite_code(e) =~= "SQLITE_MISUSE"@);
            },
            ErrorCode::NoLargeFileSupport => {
                reveal_strlit("NOLFS");
                reveal_strlit("SQLITE_NOLFS");
                assert(sqlite_code(e) =~= "SQLITE_NOLFS"@);
            },
            ErrorCode::AuthorizationForStatementDenied => {
                reveal_strlit("AUTH");
                reveal_strlit("SQLITE_AUTH");
                assert(sqlite_code(e) =~= "SQLITE_AUTH"@);
            },
            ErrorCode::ParameterOutOfRange => {
                reveal_strlit("RANGE");
                reveal_strlit("SQLITE_RANGE");
                assert(sqlite_code(e) =~= "SQLITE_RANGE"@);
            },
            ErrorCode::NotADatabase => {
                reveal_strlit("NOTADB");
                reveal_strlit("SQLITE_NOTADB");
                assert(sqlite_code(e) =~= "SQLITE_NOTADB"@);
            },
        }
    }
}

/// What is split off is the bytes that the parser took, and what is left those
/// that it did not; one that says it took more than there are took them all.
pub proof fn splitting_goes_by_bytes(s: Seq<char>, n: int, consumed: usize)
    requires
        is_char_boundary(encode_utf8(s), n),
    ensures
        encode_utf8(first_bytes(s, n)) == encode_utf8(s).subrange(0, n),
        encode_utf8(after_bytes(s, n)) == encode_utf8(s).subrange(n, encode_utf8(s).len() as int),
        consumed <= encode_utf8(s).len() ==> taken(s, consumed) == consumed,
        consumed > encode_utf8(s).len() ==> taken(s, consumed) == encode_utf8(s).len(),
{
    let bytes = encode_utf8(s);
    vstd::utf8::encode_utf8_valid_utf8(s);
    vstd::utf8::decode_utf8_split(bytes, n);
    vstd::utf8::valid_utf8_split(bytes, n);
    vstd::utf8::decode_utf8_encode_utf8(bytes.subrange(0, n));
    vstd::utf8::decode_utf8_encode_utf8(bytes.subrange(n, bytes.len() as int));
}

} // verus!
