//! Statements by their text: which words they start with, whatever stands
//! before and behind them and in whatever case, and what follows from that.

use crate::capture::{
    alters, controls_txn, nesting, only_rows, schema_statements, unit_ddl, Nesting, Unit,
};
use crate::executor::statement_refusal;
use crate::sql::{
    after_block, after_line, after_name, after_word, first_name, first_word, is_space, is_word,
    leads, name_len, quoted, quoted_reads_back, skip_blank, upper, uppercase, word_len,
};
use crate::sync::{ddl_statements, finished};
use vstd::prelude::*;

verus! {

// ---------------------------------------------------------------------------
// Words
// ---------------------------------------------------------------------------

/// What may stand before a statement.
pub enum Blank {
    /// A space, a tab or the end of a line.
    Space(char),
    /// A comment up to the end of its line.
    Line(Seq<char>),
    /// A comment between `/*` and `*/`.
    Block(Seq<char>),
}

pub open spec fn is_blank(b: Blank) -> bool {
    match b {
        Blank::Space(c) => c == ' ' || c == '\t' || c == '\n' || c == '\r',
        Blank::Line(text) => forall|i: int| 0 <= i < text.len() ==> text[i] != '\n',
        Blank::Block(text) => forall|i: int|
            0 < i < text.len() && #[trigger] text[i] == '/' ==> text[i - 1] != '*',
    }
}

pub open spec fn blank_text(b: Blank) -> Seq<char> {
    match b {
        Blank::Space(c) => seq![c],
        Blank::Line(text) => seq!['-', '-'] + text + seq!['\n'],
        Blank::Block(text) => seq!['/', '*'] + text + seq!['*', '/'],
    }
}

/// The text of blanks, one after the other.
pub open spec fn blanks(all: Seq<Blank>) -> Seq<char>
    decreases all.len(),
{
    if all.len() == 0 {
        seq![]
    } else {
        blank_text(all[0]) + blanks(all.skip(1))
    }
}

pub open spec fn are_blank(all: Seq<Blank>) -> bool {
    forall|i: int| 0 <= i < all.len() ==> is_blank(#[trigger] all[i])
}

proof fn line_passed(text: Seq<char>, rest: Seq<char>)
    requires
        forall|i: int| 0 <= i < text.len() ==> text[i] != '\n',
    ensures
        after_line(text + seq!['\n'] + rest) == rest,
    decreases text.len(),
{
    let s = text + seq!['\n'] + rest;
    if text.len() == 0 {
        assert(s.skip(1) =~= rest);
    } else {
        assert(s[0] == text[0]);
        line_passed(text.skip(1), rest);
        assert(s.skip(1) =~= text.skip(1) + seq!['\n'] + rest);
    }
}

proof fn block_passed(text: Seq<char>, rest: Seq<char>)
    requires
        forall|i: int| 0 < i < text.len() && #[trigger] text[i] == '/' ==> text[i - 1] != '*',
    ensures
        after_block(text + seq!['*', '/'] + rest) == rest,
    decreases text.len(),
{
    let s = text + seq!['*', '/'] + rest;
    if text.len() == 0 {
        assert(s.skip(2) =~= rest);
        assert(s[0] == '*' && s[1] == '/');
    } else {
        assert(s[0] == text[0]);
        if text.len() > 1 {
            assert(s[1] == text[1]);
        } else {
            assert(s[1] == '*');
        }
        let fewer = text.skip(1);
        assert forall|i: int| 0 < i < fewer.len() && #[trigger] fewer[i] == '/' implies fewer[i - 1]
            != '*' by {
            assert(text[i + 1] == '/');
        }
        block_passed(fewer, rest);
        assert(s.skip(1) =~= fewer + seq!['*', '/'] + rest);
    }
}

/// White space and comments before a text are passed over.
pub proof fn blanks_are_passed_over(all: Seq<Blank>, rest: Seq<char>)
    requires
        are_blank(all),
    ensures
        skip_blank(blanks(all) + rest) == skip_blank(rest),
    decreases all.len(),
{
    let s = blanks(all) + rest;
    if all.len() == 0 {
        assert(s =~= rest);
    } else {
        let more = all.skip(1);
        let tail = blanks(more) + rest;
        assert forall|i: int| 0 <= i < more.len() implies is_blank(#[trigger] more[i]) by {
            assert(more[i] == all[i + 1]);
        }
        blanks_are_passed_over(more, rest);
        assert(is_blank(all[0]));
        assert(s =~= blank_text(all[0]) + tail);
        match all[0] {
            Blank::Space(c) => {
                assert(s[0] == c);
                assert(s.skip(1) =~= tail);
            },
            Blank::Line(text) => {
                assert(s[0] == '-' && s[1] == '-');
                let dashed = seq!['-', '-'] + text;
                assert forall|i: int| 0 <= i < dashed.len() implies dashed[i] != '\n' by {
                    if i >= 2 {
                        assert(dashed[i] == text[i - 2]);
                    }
                }
                line_passed(dashed, tail);
                assert(s =~= dashed + seq!['\n'] + tail);
            },
            Blank::Block(text) => {
                assert(s[0] == '/' && s[1] == '*');
                assert(s.skip(2) =~= text + seq!['*', '/'] + tail);
                block_passed(text, tail);
            },
        }
    }
}

/// Whether `word` spells `name`, which is in upper case, in any case.
pub open spec fn spells(word: Seq<char>, name: Seq<char>) -> bool {
    &&& word.len() == name.len()
    &&& forall|i: int|
        0 <= i < name.len() ==> 'A' <= #[trigger] name[i] <= 'Z' && (word[i] == name[i]
            || word[i] as int == name[i] as int + 32)
}

/// Whether nothing of a word goes on at the start of `rest`.
pub open spec fn word_ends(rest: Seq<char>) -> bool {
    rest.len() > 0 ==> {
        let c = rest[0];
        !('a' <= c <= 'z') && !('A' <= c <= 'Z') && !('0' <= c <= '9') && c != '_'
    }
}

proof fn word_is_measured(word: Seq<char>, rest: Seq<char>)
    requires
        forall|i: int| 0 <= i < word.len() ==> is_word(#[trigger] word[i]),
        word_ends(rest),
    ensures
        word_len(word + rest) == word.len(),
    decreases word.len(),
{
    let s = word + rest;
    if word.len() == 0 {
        assert(s =~= rest);
    } else {
        assert(s[0] == word[0]);
        let fewer = word.skip(1);
        assert forall|i: int| 0 <= i < fewer.len() implies is_word(#[trigger] fewer[i]) by {
            assert(fewer[i] == word[i + 1]);
        }
        word_is_measured(fewer, rest);
        assert(s.skip(1) =~= fewer + rest);
    }
}

proof fn spelled_chars(word: Seq<char>, name: Seq<char>)
    requires
        spells(word, name),
    ensures
        forall|i: int| 0 <= i < word.len() ==> is_word(#[trigger] word[i]),
        uppercase(word) == name,
{
    assert forall|i: int| 0 <= i < word.len() implies is_word(#[trigger] word[i]) && upper(word[i])
        == name[i] by {
        assert('A' <= name[i] <= 'Z');
    }
    assert(uppercase(word) =~= name);
}

/// The first word of a text is the one that stands there behind white space and
/// comments, whatever its case, and what follows it is what follows it.
pub proof fn first_word_is_read(lead: Seq<Blank>, word: Seq<char>, name: Seq<char>, rest: Seq<char>)
    requires
        are_blank(lead),
        spells(word, name),
        name.len() > 0,
        word_ends(rest),
    ensures
        first_word(blanks(lead) + word + rest) == name,
        after_word(blanks(lead) + word + rest) == rest,
{
    let text = word + rest;
    assert(blanks(lead) + word + rest =~= blanks(lead) + text);
    blanks_are_passed_over(lead, text);
    spelled_chars(word, name);
    word_is_measured(word, rest);
    assert(text[0] == word[0]);
    assert('A' <= name[0] <= 'Z');
    assert(skip_blank(text) == text);
    assert(text.take(word.len() as int) =~= word);
    assert(text.skip(word.len() as int) =~= rest);
}

// ---------------------------------------------------------------------------
// What statements do
// ---------------------------------------------------------------------------

/// The words that statements start with which read or change rows alone.
pub open spec fn row_words() -> Set<Seq<char>> {
    set![
        "SELECT"@,
        "INSERT"@,
        "UPDATE"@,
        "DELETE"@,
        "REPLACE"@,
        "WITH"@,
        "VALUES"@,
        "EXPLAIN"@,
    ]
}

/// The words that statements start with which control transactions or the
/// connection.
pub open spec fn control_words() -> Set<Seq<char>> {
    set![
        "BEGIN"@,
        "COMMIT"@,
        "END"@,
        "ROLLBACK"@,
        "SAVEPOINT"@,
        "RELEASE"@,
        "PRAGMA"@,
    ]
}

/// A statement is told by its first word alone, whatever stands before it and
/// whatever follows: it only touches rows, or only controls transactions,
/// exactly where that word is one of those that do.
pub proof fn statements_are_told_by_their_word(
    lead: Seq<Blank>,
    word: Seq<char>,
    name: Seq<char>,
    rest: Seq<char>,
)
    requires
        are_blank(lead),
        spells(word, name),
        name.len() > 0,
        word_ends(rest),
    ensures
        only_rows(blanks(lead) + word + rest) <==> row_words().contains(name),
        controls_txn(blanks(lead) + word + rest) <==> control_words().contains(name),
        alters(blanks(lead) + word + rest) <==> !row_words().contains(name)
            && !control_words().contains(name),
{
    first_word_is_read(lead, word, name, rest);
}

/// A statement that can change the schema is never taken for one that only
/// touches rows or only controls transactions, whatever follows its first word.
pub proof fn schema_words_change_the_schema(
    lead: Seq<Blank>,
    word: Seq<char>,
    name: Seq<char>,
    rest: Seq<char>,
)
    requires
        are_blank(lead),
        spells(word, name),
        word_ends(rest),
        name == "CREATE"@ || name == "DROP"@ || name == "ALTER"@,
    ensures
        !only_rows(blanks(lead) + word + rest),
        !controls_txn(blanks(lead) + word + rest),
        alters(blanks(lead) + word + rest),
{
    reveal_strlit("CREATE");
    reveal_strlit("DROP");
    reveal_strlit("ALTER");
    reveal_strlit("SELECT");
    reveal_strlit("INSERT");
    reveal_strlit("UPDATE");
    reveal_strlit("DELETE");
    reveal_strlit("REPLACE");
    reveal_strlit("WITH");
    reveal_strlit("VALUES");
    reveal_strlit("EXPLAIN");
    reveal_strlit("BEGIN");
    reveal_strlit("COMMIT");
    reveal_strlit("END");
    reveal_strlit("ROLLBACK");
    reveal_strlit("SAVEPOINT");
    reveal_strlit("RELEASE");
    reveal_strlit("PRAGMA");
    first_word_is_read(lead, word, name, rest);
    assert("CREATE"@[0] == 'C' && "CREATE"@[1] == 'R');
    assert("DROP"@[0] == 'D' && "ALTER"@[0] == 'A');
    assert("SELECT"@[0] == 'S' && "INSERT"@[0] == 'I' && "UPDATE"@[0] == 'U');
    assert("DELETE"@[0] == 'D' && "VALUES"@[0] == 'V' && "COMMIT"@[1] == 'O');
    assert("PRAGMA"@[0] == 'P' && "WITH"@[0] == 'W' && "BEGIN"@[0] == 'B');
}

/// Schema statements are kept in order and verbatim: those of two stretches of
/// statements are those of the first and then those of the second, and a
/// statement is among them exactly where it does not only touch rows.
pub proof fn schema_statements_keep_their_order(
    a: Seq<Seq<char>>,
    sql: Seq<char>,
    b: Seq<Seq<char>>,
)
    ensures
        schema_statements(a + b) == schema_statements(a) + schema_statements(b),
        schema_statements(seq![sql]) == if only_rows(sql) {
            Seq::<Seq<char>>::empty()
        } else {
            seq![sql]
        },
        schema_statements(Seq::<Seq<char>>::empty()).len() == 0,
    decreases b.len(),
{
    if b.len() == 0 {
        assert(a + b =~= a);
        assert(schema_statements(a) + schema_statements(b) =~= schema_statements(a));
    } else {
        schema_statements_keep_their_order(a, sql, b.drop_last());
        assert((a + b).drop_last() =~= a + b.drop_last());
        assert((a + b).last() == b.last());
        assert(schema_statements(a + b) =~= schema_statements(a) + schema_statements(b));
    }
    let one = seq![sql];
    assert(one.drop_last() =~= Seq::<Seq<char>>::empty());
    assert(schema_statements(one.drop_last()).len() == 0);
    assert(schema_statements(one) =~= if only_rows(sql) {
        Seq::<Seq<char>>::empty()
    } else {
        seq![sql]
    });
}

/// A unit whose statement changed the schema's version has that statement among
/// its schema changes, as it was written.
pub proof fn changed_schema_has_its_statement(
    unit: Unit,
    lead: Seq<Blank>,
    word: Seq<char>,
    name: Seq<char>,
    rest: Seq<char>,
    latest: i64,
)
    requires
        are_blank(lead),
        spells(word, name),
        word_ends(rest),
        name == "CREATE"@ || name == "DROP"@ || name == "ALTER"@,
        latest != unit.at_start,
    ensures
        ({
            let sql = blanks(lead) + word + rest;
            let after = Unit { latest, ..unit.recorded(sql) };
            &&& unit_ddl(after).len() == 1
            &&& unit_ddl(after)[0].len() > 0
            &&& unit_ddl(after)[0].last() == sql
            &&& unit_ddl(after)[0].drop_last() == schema_statements(unit.stmts)
        }),
{
    let sql = blanks(lead) + word + rest;
    schema_words_change_the_schema(lead, word, name, rest);
    assert(unit.stmts.push(sql).drop_last() =~= unit.stmts);
    let all = schema_statements(unit.stmts.push(sql));
    assert(all == schema_statements(unit.stmts).push(sql));
    assert(all.drop_last() =~= schema_statements(unit.stmts));
}

// ---------------------------------------------------------------------------
// Schema statements as they are served
// ---------------------------------------------------------------------------

proof fn trailing_space_goes(text: Seq<char>, space: Seq<char>)
    requires
        text.len() > 0,
        !is_space(text.last()),
        forall|i: int| 0 <= i < space.len() ==> is_space(#[trigger] space[i]),
    ensures
        crate::sql::trim_end(text + space) == text,
    decreases space.len(),
{
    let s = text + space;
    if space.len() == 0 {
        assert(s =~= text);
    } else {
        assert(s.last() == space[space.len() - 1]);
        let fewer = space.drop_last();
        assert forall|i: int| 0 <= i < fewer.len() implies is_space(#[trigger] fewer[i]) by {
            assert(fewer[i] == space[i]);
        }
        trailing_space_goes(text, fewer);
        assert(s.drop_last() =~= text + fewer);
    }
}

/// A schema statement is served as it was written, with one semicolon at its
/// end and without white space behind it.
pub proof fn schema_statements_are_served_verbatim(text: Seq<char>, space: Seq<char>)
    requires
        text.len() > 0,
        !is_space(text.last()),
        forall|i: int| 0 <= i < space.len() ==> is_space(#[trigger] space[i]),
    ensures
        text.last() != ';' ==> finished(text + space) == text.push(';'),
        text.last() == ';' ==> finished(text + space) == text,
{
    trailing_space_goes(text, space);
}

/// Visible ASCII is no white space; a space, a tab and the ends of lines are.
pub proof fn ascii_space_is_space(c: char)
    requires
        (c as u32) < 0x80,
    ensures
        is_space(c) <==> c == ' ' || c == '\t' || c == '\n' || c == '\r' || c == '\x0b' || c
            == '\x0c',
{
}

/// The schema statements of a transaction are served first, each at its own
/// place, and none is left out.
pub proof fn every_schema_statement_is_served(
    ddl: Seq<Seq<Seq<char>>>,
    stmts: Seq<Seq<char>>,
    k: int,
)
    requires
        0 <= k < stmts.len(),
    ensures
        ddl_statements(ddl.push(stmts)).len() == ddl_statements(ddl).len() + stmts.len(),
        ddl_statements(ddl.push(stmts))[ddl_statements(ddl).len() + k] == finished(stmts[k]),
        ddl_statements(ddl.push(stmts)).take(ddl_statements(ddl).len() as int) == ddl_statements(
            ddl,
        ),
{
    assert(ddl.push(stmts).drop_last() =~= ddl);
    assert(ddl_statements(ddl.push(stmts)).take(ddl_statements(ddl).len() as int)
        =~= ddl_statements(ddl));
}

// ---------------------------------------------------------------------------
// Savepoints
// ---------------------------------------------------------------------------

/// Whether nothing of a name goes on at the start of `rest`.
pub open spec fn name_ends(rest: Seq<char>) -> bool {
    rest.len() > 0 ==> (rest[0] as u32) < 0x80 && rest[0] != '$'
        && word_ends(rest)
}

proof fn name_is_measured(word: Seq<char>, rest: Seq<char>)
    requires
        forall|i: int| 0 <= i < word.len() ==> is_word(#[trigger] word[i]),
        name_ends(rest),
    ensures
        name_len(word + rest) == word.len(),
    decreases word.len(),
{
    let s = word + rest;
    if word.len() == 0 {
        assert(s =~= rest);
    } else {
        assert(s[0] == word[0]);
        let fewer = word.skip(1);
        assert forall|i: int| 0 <= i < fewer.len() implies is_word(#[trigger] fewer[i]) by {
            assert(fewer[i] == word[i + 1]);
        }
        name_is_measured(fewer, rest);
        assert(s.skip(1) =~= fewer + rest);
    }
}

proof fn name_is_read(lead: Seq<Blank>, word: Seq<char>, name: Seq<char>, rest: Seq<char>)
    requires
        are_blank(lead),
        spells(word, name),
        name.len() > 0,
        name_ends(rest),
    ensures
        first_name(blanks(lead) + word + rest) == name,
        after_name(blanks(lead) + word + rest) == rest,
{
    let text = word + rest;
    assert(blanks(lead) + word + rest =~= blanks(lead) + text);
    blanks_are_passed_over(lead, text);
    spelled_chars(word, name);
    name_is_measured(word, rest);
    assert(text[0] == word[0]);
    assert('A' <= name[0] <= 'Z');
    assert(skip_blank(text) == text);
    assert(text.take(word.len() as int) =~= word);
    assert(text.skip(word.len() as int) =~= rest);
}

/// Whether `text` starts with blanks, at least one: so a word before it ends.
pub open spec fn apart_by(gap: Seq<Blank>) -> bool {
    are_blank(gap) && gap.len() > 0
}

proof fn gap_ends_word(gap: Seq<Blank>, rest: Seq<char>)
    requires
        apart_by(gap),
    ensures
        word_ends(blanks(gap) + rest),
        name_ends(blanks(gap) + rest),
{
    let s = blanks(gap) + rest;
    assert(is_blank(gap[0]));
    assert(s[0] == blank_text(gap[0])[0]);
}

/// `SAVEPOINT` opens the savepoint that it names, in whatever case: names that
/// differ in case alone are the same.
pub proof fn savepoint_opens(
    lead: Seq<Blank>,
    word: Seq<char>,
    gap: Seq<Blank>,
    label: Seq<char>,
    name: Seq<char>,
    rest: Seq<char>,
)
    requires
        are_blank(lead),
        spells(word, "SAVEPOINT"@),
        apart_by(gap),
        spells(label, name),
        name.len() > 0,
        name_ends(rest),
    ensures
        nesting(blanks(lead) + word + (blanks(gap) + label + rest)) == Nesting::Open(name),
{
    reveal_strlit("SAVEPOINT");
    assert(blanks(gap) + label + rest =~= blanks(gap) + (label + rest));
    gap_ends_word(gap, label + rest);
    first_word_is_read(lead, word, "SAVEPOINT"@, blanks(gap) + label + rest);
    name_is_read(gap, label, name, rest);
}

/// `RELEASE` closes the savepoint that it names, with or without `SAVEPOINT`
/// before the name.
pub proof fn release_closes(
    lead: Seq<Blank>,
    word: Seq<char>,
    gap: Seq<Blank>,
    label: Seq<char>,
    name: Seq<char>,
    rest: Seq<char>,
    second: Seq<char>,
    between: Seq<Blank>,
)
    requires
        are_blank(lead),
        spells(word, "RELEASE"@),
        apart_by(gap),
        spells(label, name),
        name.len() > 0,
        name_ends(rest),
        spells(second, "SAVEPOINT"@),
        apart_by(between),
    ensures
        name != "SAVEPOINT"@ ==> nesting(blanks(lead) + word + (blanks(gap) + label + rest))
            == Nesting::Close(name),
        nesting(
            blanks(lead) + word + (blanks(gap) + second + (blanks(between) + label + rest)),
        ) == Nesting::Close(name),
{
    reveal_strlit("SAVEPOINT");
    reveal_strlit("RELEASE");
    let short = blanks(gap) + label + rest;
    let tail = blanks(between) + label + rest;
    let long = blanks(gap) + second + tail;
    assert(short =~= blanks(gap) + (label + rest));
    assert(long =~= blanks(gap) + (second + tail));
    assert(tail =~= blanks(between) + (label + rest));
    gap_ends_word(gap, label + rest);
    gap_ends_word(gap, second + tail);
    gap_ends_word(between, label + rest);
    first_word_is_read(lead, word, "RELEASE"@, short);
    first_word_is_read(lead, word, "RELEASE"@, long);
    first_word_is_read(gap, label, name, rest);
    first_word_is_read(gap, second, "SAVEPOINT"@, tail);
    name_is_read(gap, label, name, rest);
    name_is_read(between, label, name, rest);
}

/// `ROLLBACK TO` goes back to the savepoint that it names, with or without
/// `TRANSACTION` before `TO` and `SAVEPOINT` before the name; any other
/// `ROLLBACK` goes back to none.
pub proof fn rollback_goes_back(
    lead: Seq<Blank>,
    word: Seq<char>,
    gap: Seq<Blank>,
    to: Seq<char>,
    between: Seq<Blank>,
    label: Seq<char>,
    name: Seq<char>,
    rest: Seq<char>,
    second: Seq<char>,
    third: Seq<char>,
)
    requires
        are_blank(lead),
        spells(word, "ROLLBACK"@),
        apart_by(gap),
        spells(to, "TO"@),
        apart_by(between),
        spells(label, name),
        name.len() > 0,
        name_ends(rest),
        spells(second, "SAVEPOINT"@),
        spells(third, "TRANSACTION"@),
    ensures
        name != "SAVEPOINT"@ ==> nesting(
            blanks(lead) + word + (blanks(gap) + to + (blanks(between) + label + rest)),
        ) == Nesting::Back(name),
        nesting(
            blanks(lead) + word + (blanks(gap) + to + (blanks(between) + second + (blanks(between)
                + label + rest))),
        ) == Nesting::Back(name),
        name != "SAVEPOINT"@ ==> nesting(
            blanks(lead) + word + (blanks(gap) + third + (blanks(gap) + to + (blanks(between) + label
                + rest))),
        ) == Nesting::Back(name),
        name != "TO"@ && name != "TRANSACTION"@ ==> nesting(
            blanks(lead) + word + (blanks(gap) + label + rest),
        ) == Nesting::Nothing,
{
    reveal_strlit("SAVEPOINT");
    reveal_strlit("RELEASE");
    reveal_strlit("ROLLBACK");
    reveal_strlit("TO");
    reveal_strlit("TRANSACTION");
    let named = blanks(between) + label + rest;
    let saved = blanks(between) + second + named;
    let to_named = blanks(gap) + to + named;
    let to_saved = blanks(gap) + to + saved;
    let via = blanks(gap) + third + to_named;
    let other = blanks(gap) + label + rest;
    assert(named =~= blanks(between) + (label + rest));
    assert(saved =~= blanks(between) + (second + named));
    assert(to_named =~= blanks(gap) + (to + named));
    assert(to_saved =~= blanks(gap) + (to + saved));
    assert(via =~= blanks(gap) + (third + to_named));
    assert(other =~= blanks(gap) + (label + rest));
    gap_ends_word(between, label + rest);
    gap_ends_word(between, second + named);
    gap_ends_word(gap, to + named);
    gap_ends_word(gap, to + saved);
    gap_ends_word(gap, third + to_named);
    gap_ends_word(gap, label + rest);
    first_word_is_read(lead, word, "ROLLBACK"@, to_named);
    first_word_is_read(lead, word, "ROLLBACK"@, to_saved);
    first_word_is_read(lead, word, "ROLLBACK"@, via);
    first_word_is_read(lead, word, "ROLLBACK"@, other);
    first_word_is_read(gap, to, "TO"@, named);
    first_word_is_read(gap, to, "TO"@, saved);
    first_word_is_read(gap, third, "TRANSACTION"@, to_named);
    first_word_is_read(gap, label, name, rest);
    first_word_is_read(between, label, name, rest);
    first_word_is_read(between, second, "SAVEPOINT"@, named);
    name_is_read(between, label, name, rest);
}

/// A statement that starts with another word does nothing to savepoints.
pub proof fn other_words_leave_savepoints(
    lead: Seq<Blank>,
    word: Seq<char>,
    name: Seq<char>,
    rest: Seq<char>,
)
    requires
        are_blank(lead),
        spells(word, name),
        name.len() > 0,
        word_ends(rest),
        name != "SAVEPOINT"@,
        name != "RELEASE"@,
        name != "ROLLBACK"@,
    ensures
        nesting(blanks(lead) + word + rest) == Nesting::Nothing,
{
    first_word_is_read(lead, word, name, rest);
}

// ---------------------------------------------------------------------------
// Statements that are refused
// ---------------------------------------------------------------------------

/// A statement is refused exactly where it starts with `ATTACH`, in any case,
/// behind whatever white space and comments.
pub proof fn only_attach_is_refused(lead: Seq<Blank>, text: Seq<char>)
    requires
        are_blank(lead),
        skip_blank(text) == text,
    ensures
        statement_refusal(blanks(lead) + text) is Some <==> text.len() >= 6 && spells(
            text.take(6),
            "ATTACH"@,
        ),
        statement_refusal(blanks(lead) + text) matches Some(f) ==> f.code == "SQLITE_MISUSE"@,
{
    reveal_strlit("ATTACH");
    blanks_are_passed_over(lead, text);
    let name = "ATTACH"@;
    if text.len() >= 6 {
        if spells(text.take(6), name) {
            spelled_chars(text.take(6), name);
            assert(uppercase(text).take(6) =~= uppercase(text.take(6)));
        } else if leads(text, name) {
            assert forall|i: int| 0 <= i < 6 implies 'A' <= #[trigger] name[i] <= 'Z' && (text.take(
                6,
            )[i] == name[i] || text.take(6)[i] as int == name[i] as int + 32) by {
                assert(uppercase(text).take(6)[i] == upper(text[i]));
            }
        }
    }
}

/// A savepoint's name may stand between quotes or in brackets: then it is what
/// stands there, whatever it holds.
pub proof fn quoted_names_are_read(
    lead: Seq<Blank>,
    name: Seq<char>,
    q: char,
    rest: Seq<char>,
)
    requires
        are_blank(lead),
        q == '"' || q == '\'' || q == '`',
        rest.len() > 0 ==> rest[0] != q,
    ensures
        first_name(blanks(lead) + quoted(name, q) + rest) == uppercase(name),
        after_name(blanks(lead) + quoted(name, q) + rest) == rest,
{
    let text = quoted(name, q) + rest;
    assert(blanks(lead) + quoted(name, q) + rest =~= blanks(lead) + text);
    blanks_are_passed_over(lead, text);
    quoted_reads_back(name, q, rest);
    assert(text[0] == q);
    assert(skip_blank(text) == text);
}

/// White space is what Unicode says it is.
pub proof fn white_space_is_unicodes(c: char)
    requires
        (c as u32) >= 0x80,
    ensures
        is_space(c) <==> c == '\u{85}' || c == '\u{a0}' || c == '\u{1680}' || '\u{2000}' <= c
            <= '\u{200a}' || c == '\u{2028}' || c == '\u{2029}' || c == '\u{202f}' || c == '\u{205f}'
            || c == '\u{3000}',
{
}

/// Upper case changes the letters of ASCII and nothing else.
pub proof fn only_letters_have_another_case(c: char)
    ensures
        'a' <= c <= 'z' ==> upper(c) as int == c as int - 32,
        !('a' <= c <= 'z') ==> upper(c) == c,
{
}

} // verus!
