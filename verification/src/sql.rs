//! SQL text: the words a statement starts with, identifiers and literals.

use crate::binlog::value::Scalar;
use crate::binlog::{value, Value};
use crate::text::{chars_of, digit, digit_char, push_signed, signed_decimal};
use std::collections::HashMap;
use vstd::prelude::*;
use vstd::utf8::encode_utf8;

verus! {

broadcast use vstd::std_specs::hash::group_hash_axioms;

// ---------------------------------------------------------------------------
// Words
// ---------------------------------------------------------------------------

/// White space, as Unicode has it.
pub open spec fn is_space(c: char) -> bool {
    let v = c as u32;
    ||| 0x9 <= v <= 0xd
    ||| v == 0x20
    ||| v == 0x85
    ||| v == 0xa0
    ||| v == 0x1680
    ||| 0x2000 <= v <= 0x200a
    ||| v == 0x2028
    ||| v == 0x2029
    ||| v == 0x202f
    ||| v == 0x205f
    ||| v == 0x3000
}

fn space(c: char) -> (r: bool)
    ensures
        r == is_space(c),
{
    let v: u32 = c as u32;
    (0x9 <= v && v <= 0xd) || v == 0x20 || v == 0x85 || v == 0xa0 || v == 0x1680 || (0x2000 <= v
        && v <= 0x200a) || v == 0x2028 || v == 0x2029 || v == 0x202f || v == 0x205f || v == 0x3000
}

/// `s` without leading white space.
pub open spec fn trim_start(s: Seq<char>) -> Seq<char>
    decreases s.len(),
{
    if s.len() > 0 && is_space(s[0]) {
        trim_start(s.skip(1))
    } else {
        s
    }
}

/// `s` without trailing white space.
pub open spec fn trim_end(s: Seq<char>) -> Seq<char>
    decreases s.len(),
{
    if s.len() > 0 && is_space(s.last()) {
        trim_end(s.drop_last())
    } else {
        s
    }
}

/// Where the text starts once white space at `from` is passed over.
pub fn skip_space(chars: &[char], from: usize) -> (r: usize)
    requires
        from <= chars@.len(),
    ensures
        from <= r <= chars@.len(),
        chars@.skip(r as int) == trim_start(chars@.skip(from as int)),
{
    let mut i: usize = from;
    while i < chars.len() && space(chars[i])
        invariant
            from <= i <= chars@.len(),
            trim_start(chars@.skip(i as int)) == trim_start(chars@.skip(from as int)),
        decreases chars@.len() - i,
    {
        assert(chars@.skip(i as int).skip(1) =~= chars@.skip(i + 1));
        i = i + 1;
    }
    i
}

/// Where the text before `to` ends without its trailing white space.
pub fn skip_space_back(chars: &[char], to: usize) -> (r: usize)
    requires
        to <= chars@.len(),
    ensures
        r <= to,
        chars@.take(r as int) == trim_end(chars@.take(to as int)),
{
    let mut i: usize = to;
    while i > 0 && space(chars[i - 1])
        invariant
            i <= to <= chars@.len(),
            trim_end(chars@.take(i as int)) == trim_end(chars@.take(to as int)),
        decreases i,
    {
        assert(chars@.take(i as int).drop_last() =~= chars@.take(i - 1));
        i = i - 1;
    }
    i
}

/// What follows the end of the line.
pub open spec fn after_line(s: Seq<char>) -> Seq<char>
    decreases s.len(),
{
    if s.len() == 0 {
        s
    } else if s[0] == '\n' {
        s.skip(1)
    } else {
        after_line(s.skip(1))
    }
}

/// What follows the end of a block comment.
pub open spec fn after_block(s: Seq<char>) -> Seq<char>
    decreases s.len(),
{
    if s.len() == 0 {
        s
    } else if s.len() >= 2 && s[0] == '*' && s[1] == '/' {
        s.skip(2)
    } else {
        after_block(s.skip(1))
    }
}

proof fn after_line_len(s: Seq<char>)
    ensures
        after_line(s).len() <= s.len(),
        s.len() > 0 ==> after_line(s).len() < s.len(),
    decreases s.len(),
{
    if s.len() > 0 && s[0] != '\n' {
        after_line_len(s.skip(1));
    }
}

proof fn after_block_len(s: Seq<char>)
    ensures
        after_block(s).len() <= s.len(),
    decreases s.len(),
{
    if s.len() > 0 {
        after_block_len(s.skip(1));
    }
}

/// `s` without leading white space and comments.
pub open spec fn skip_blank(s: Seq<char>) -> Seq<char>
    decreases s.len(),
    via skip_blank_shortens
{
    if s.len() == 0 {
        s
    } else if is_space(s[0]) {
        skip_blank(s.skip(1))
    } else if s.len() >= 2 && s[0] == '-' && s[1] == '-' {
        skip_blank(after_line(s))
    } else if s.len() >= 2 && s[0] == '/' && s[1] == '*' {
        skip_blank(after_block(s.skip(2)))
    } else {
        s
    }
}

#[via_fn]
proof fn skip_blank_shortens(s: Seq<char>) {
    after_line_len(s);
    if s.len() >= 2 {
        after_block_len(s.skip(2));
    }
}

fn line_end(chars: &[char], from: usize) -> (r: usize)
    requires
        from <= chars@.len(),
    ensures
        from <= r <= chars@.len(),
        chars@.skip(r as int) == after_line(chars@.skip(from as int)),
{
    let mut i: usize = from;
    while i < chars.len()
        invariant
            from <= i <= chars@.len(),
            after_line(chars@.skip(i as int)) == after_line(chars@.skip(from as int)),
        decreases chars@.len() - i,
    {
        assert(chars@.skip(i as int).skip(1) =~= chars@.skip(i + 1));
        if chars[i] == '\n' {
            return i + 1;
        }
        i = i + 1;
    }
    i
}

fn block_end(chars: &[char], from: usize) -> (r: usize)
    requires
        from <= chars@.len(),
    ensures
        from <= r <= chars@.len(),
        chars@.skip(r as int) == after_block(chars@.skip(from as int)),
{
    let mut i: usize = from;
    while i < chars.len()
        invariant
            from <= i <= chars@.len(),
            after_block(chars@.skip(i as int)) == after_block(chars@.skip(from as int)),
        decreases chars@.len() - i,
    {
        let ghost rest = chars@.skip(i as int);
        assert(rest.skip(1) =~= chars@.skip(i + 1));
        if chars.len() - i >= 2 && chars[i] == '*' && chars[i + 1] == '/' {
            assert(rest.skip(2) =~= chars@.skip(i + 2));
            return i + 2;
        }
        i = i + 1;
    }
    i
}

/// Where the text starts once white space and comments at `from` are passed
/// over.
pub fn skip_blank_at(chars: &[char], from: usize) -> (r: usize)
    requires
        from <= chars@.len(),
    ensures
        from <= r <= chars@.len(),
        chars@.skip(r as int) == skip_blank(chars@.skip(from as int)),
{
    let mut i: usize = from;
    while i < chars.len()
        invariant
            from <= i <= chars@.len(),
            skip_blank(chars@.skip(i as int)) == skip_blank(chars@.skip(from as int)),
        decreases chars@.len() - i,
    {
        let ghost rest = chars@.skip(i as int);
        let more: bool = chars.len() - i >= 2;
        assert(rest.skip(1) =~= chars@.skip(i + 1));
        if space(chars[i]) {
            i = i + 1;
        } else if more && chars[i] == '-' && chars[i + 1] == '-' {
            proof {
                after_line_len(rest);
            }
            i = line_end(chars, i);
        } else if more && chars[i] == '/' && chars[i + 1] == '*' {
            assert(rest.skip(2) =~= chars@.skip(i + 2));
            i = block_end(chars, i + 2);
        } else {
            return i;
        }
    }
    i
}

/// An ASCII lower-case letter's upper case; any other character itself.
pub open spec fn upper(c: char) -> char {
    if 'a' <= c <= 'z' {
        ((c as u32) - 32) as char
    } else {
        c
    }
}

fn upper_char(c: char) -> (r: char)
    ensures
        r == upper(c),
{
    if c >= 'a' && c <= 'z' {
        ((c as u32 - 32) as u8) as char
    } else {
        c
    }
}

pub open spec fn uppercase(s: Seq<char>) -> Seq<char> {
    s.map_values(|c: char| upper(c))
}

/// A character that words are made of.
pub open spec fn is_word(c: char) -> bool {
    ||| 'a' <= c <= 'z'
    ||| 'A' <= c <= 'Z'
    ||| '0' <= c <= '9'
    ||| c == '_'
}

/// The number of characters in the word that `s` starts with.
pub open spec fn word_len(s: Seq<char>) -> nat
    decreases s.len(),
{
    if s.len() > 0 && is_word(s[0]) {
        1 + word_len(s.skip(1))
    } else {
        0
    }
}

/// The first word of `s`, in upper case.
pub open spec fn first_word(s: Seq<char>) -> Seq<char> {
    let text = skip_blank(s);
    uppercase(text.take(word_len(text) as int))
}

/// What follows the first word of `s`.
pub open spec fn after_word(s: Seq<char>) -> Seq<char> {
    let text = skip_blank(s);
    text.skip(word_len(text) as int)
}

fn word_end(chars: &[char], from: usize) -> (r: usize)
    requires
        from <= chars@.len(),
    ensures
        from <= r <= chars@.len(),
        r - from == word_len(chars@.skip(from as int)),
{
    let mut i: usize = from;
    while i < chars.len()
        invariant
            from <= i <= chars@.len(),
            i - from + word_len(chars@.skip(i as int)) == word_len(chars@.skip(from as int)),
        decreases chars@.len() - i,
    {
        let c: char = chars[i];
        assert(chars@.skip(i as int).skip(1) =~= chars@.skip(i + 1));
        if !((c >= 'a' && c <= 'z') || (c >= 'A' && c <= 'Z') || (c >= '0' && c <= '9') || c
            == '_') {
            return i;
        }
        i = i + 1;
    }
    i
}

/// Reads the first word at `from`, in upper case, and where it ends.
pub fn read_word(chars: &[char], from: usize) -> (r: (String, usize))
    requires
        from <= chars@.len(),
    ensures
        from <= r.1 <= chars@.len(),
        r.0@ == first_word(chars@.skip(from as int)),
        chars@.skip(r.1 as int) == after_word(chars@.skip(from as int)),
{
    let start: usize = skip_blank_at(chars, from);
    let end: usize = word_end(chars, start);
    let ghost text = chars@.skip(start as int);
    let mut word = String::new();
    let mut i: usize = start;
    while i < end
        invariant
            start <= i <= end <= chars@.len(),
            text == chars@.skip(start as int),
            word@ == uppercase(text.take(i - start)),
        decreases end - i,
    {
        word.push(upper_char(chars[i]));
        i = i + 1;
        assert(word@ =~= uppercase(text.take(i - start)));
    }
    assert(chars@.skip(end as int) =~= text.skip(end - start));
    (word, end)
}

/// Whether `text`, whatever its case, starts with `word`.
pub open spec fn leads(text: Seq<char>, word: Seq<char>) -> bool {
    word.len() <= text.len() && uppercase(text).take(word.len() as int) == word
}

/// Whether `chars`, from the place `start` on and whatever their case, start
/// with `word`.
pub fn leads_at(chars: &[char], start: usize, word: &str) -> (r: bool)
    requires
        start <= chars@.len(),
    ensures
        r == leads(chars@.skip(start as int), word@),
{
    let wanted = chars_of(word);
    let end: usize = chars.len();
    let ghost text = uppercase(chars@.skip(start as int));
    if end - start < wanted.len() {
        return false;
    }
    let mut i: usize = 0;
    while i < wanted.len()
        invariant
            i <= wanted@.len(),
            start + wanted@.len() <= end == chars@.len(),
            text == uppercase(chars@.skip(start as int)),
            text.take(i as int) == wanted@.take(i as int),
            wanted@ == word@,
        decreases wanted@.len() - i,
    {
        assert(text[i as int] == upper(chars@[start + i]));
        if upper_char(chars[start + i]) != wanted[i] {
            assert(text.take(wanted@.len() as int)[i as int] != wanted@[i as int]);
            return false;
        }
        assert(text.take(i + 1) =~= text.take(i as int).push(text[i as int]));
        assert(wanted@.take(i + 1) =~= wanted@.take(i as int).push(wanted@[i as int]));
        i = i + 1;
    }
    assert(wanted@.take(i as int) =~= wanted@);
    true
}

/// Whether the statement, without leading white space and whatever its case,
/// starts with `word`.
pub open spec fn starts_with_word(sql: Seq<char>, word: Seq<char>) -> bool {
    leads(trim_start(sql), word)
}

/// Whether `sql`, without leading white space, starts with `word` in any case.
pub fn starts_with(sql: &str, word: &str) -> (r: bool)
    ensures
        r == starts_with_word(sql@, word@),
{
    let chars = chars_of(sql);
    let start: usize = skip_space(chars.as_slice(), 0);
    assert(chars@.skip(0) =~= chars@);
    leads_at(chars.as_slice(), start, word)
}

// ---------------------------------------------------------------------------
// Quoting
// ---------------------------------------------------------------------------

/// `s` with every `q` twice.
pub open spec fn doubled(s: Seq<char>, q: char) -> Seq<char>
    decreases s.len(),
{
    if s.len() == 0 {
        seq![]
    } else if s.last() == q {
        doubled(s.drop_last(), q).push(q).push(q)
    } else {
        doubled(s.drop_last(), q).push(s.last())
    }
}

/// `s` between two `q`, with every `q` in it doubled.
pub open spec fn quoted(s: Seq<char>, q: char) -> Seq<char> {
    seq![q] + doubled(s, q) + seq![q]
}

/// What SQL reads behind an opening `q`: the characters up to a `q` that is
/// not doubled, and what follows it.
pub open spec fn read_quoted(s: Seq<char>, q: char) -> Option<(Seq<char>, Seq<char>)>
    decreases s.len(),
{
    if s.len() == 0 {
        None
    } else if s[0] != q {
        match read_quoted(s.skip(1), q) {
            Some((text, rest)) => Some((seq![s[0]] + text, rest)),
            None => None,
        }
    } else if s.len() >= 2 && s[1] == q {
        match read_quoted(s.skip(2), q) {
            Some((text, rest)) => Some((seq![q] + text, rest)),
            None => None,
        }
    } else {
        Some((seq![], s.skip(1)))
    }
}

proof fn doubled_first(s: Seq<char>, q: char)
    requires
        s.len() > 0,
    ensures
        doubled(s, q) == (if s[0] == q {
            seq![q, q]
        } else {
            seq![s[0]]
        }) + doubled(s.skip(1), q),
    decreases s.len(),
{
    if s.len() == 1 {
        assert(s.drop_last() =~= seq![]);
        assert(s.skip(1) =~= seq![]);
        assert(doubled(s.drop_last(), q) =~= seq![]);
        assert(doubled(s, q) =~= (if s[0] == q {
            seq![q, q]
        } else {
            seq![s[0]]
        }) + doubled(s.skip(1), q));
    } else {
        doubled_first(s.drop_last(), q);
        assert(s.drop_last().skip(1) =~= s.skip(1).drop_last());
        assert(doubled(s, q) =~= (if s[0] == q {
            seq![q, q]
        } else {
            seq![s[0]]
        }) + doubled(s.skip(1), q));
    }
}

/// A quoted text is read back as that text, whatever it holds and whatever
/// follows, short of another quote: nothing in it ends it early.
pub proof fn quoted_reads_back(s: Seq<char>, q: char, rest: Seq<char>)
    requires
        rest.len() > 0 ==> rest[0] != q,
    ensures
        quoted(s, q)[0] == q,
        read_quoted((quoted(s, q) + rest).skip(1), q) == Some((s, rest)),
    decreases s.len(),
{
    let body = doubled(s, q) + (seq![q] + rest);
    assert((quoted(s, q) + rest).skip(1) =~= body);
    if s.len() == 0 {
        assert(body =~= seq![q] + rest);
        assert(body.skip(1) =~= rest);
    } else {
        doubled_first(s, q);
        let inner = doubled(s.skip(1), q) + (seq![q] + rest);
        quoted_reads_back(s.skip(1), q, rest);
        assert((quoted(s.skip(1), q) + rest).skip(1) =~= inner);
        if s[0] == q {
            assert(body.skip(2) =~= inner);
        } else {
            assert(body.skip(1) =~= inner);
        }
        assert(seq![s[0]] + s.skip(1) =~= s);
    }
}

/// Appends `s` between two `q`, with every `q` in it doubled.
pub fn push_quoted(out: &mut String, s: &str, q: char)
    ensures
        final(out)@ == old(out)@ + quoted(s@, q),
{
    let chars = chars_of(s);
    out.push(q);
    let ghost head = out@;
    let mut i: usize = 0;
    assert(chars@.take(0) =~= seq![]);
    assert(out@ =~= head + doubled(chars@.take(0), q));
    while i < chars.len()
        invariant
            i <= chars@.len(),
            out@ == head + doubled(chars@.take(i as int), q),
        decreases chars@.len() - i,
    {
        let c: char = chars[i];
        let ghost before = out@;
        if c == q {
            out.push(q);
        }
        out.push(c);
        assert(chars@.take(i + 1).drop_last() =~= chars@.take(i as int));
        assert(out@ =~= head + doubled(chars@.take(i + 1), q));
        i = i + 1;
    }
    assert(chars@.take(i as int) =~= chars@);
    out.push(q);
    assert(out@ =~= old(out)@ + quoted(s@, q));
}

/// Reads a text behind its opening `q`: what it holds, and where it ends.
fn read_quoted_at(chars: &[char], from: usize, q: char) -> (r: Option<(Vec<char>, usize)>)
    requires
        from <= chars@.len(),
    ensures
        match read_quoted(chars@.skip(from as int), q) {
            Some((text, rest)) => r matches Some((t, at)) && t@ == text && from <= at
                <= chars@.len() && chars@.skip(at as int) == rest,
            None => r is None,
        },
{
    let mut text: Vec<char> = Vec::new();
    let mut i: usize = from;
    proof {
        if let Some((t, _)) = read_quoted(chars@.skip(from as int), q) {
            assert(text@ + t =~= t);
        }
    }
    while i < chars.len()
        invariant
            from <= i <= chars@.len(),
            read_quoted(chars@.skip(from as int), q) == (match read_quoted(
                chars@.skip(i as int),
                q,
            ) {
                Some((t, rest)) => Some((text@ + t, rest)),
                None => None,
            }),
        decreases chars@.len() - i,
    {
        let c: char = chars[i];
        let ghost rest = chars@.skip(i as int);
        let ghost before = text@;
        assert(rest.skip(1) =~= chars@.skip(i + 1));
        if c != q {
            text.push(c);
            i = i + 1;
        } else if chars.len() - i >= 2 && chars[i + 1] == q {
            assert(rest.skip(2) =~= chars@.skip(i + 2));
            text.push(q);
            i = i + 2;
        } else {
            assert(text@ + Seq::<char>::empty() =~= text@);
            return Some((text, i + 1));
        }
        proof {
            if let Some((t, _)) = read_quoted(chars@.skip(i as int), q) {
                assert(before + (seq![c] + t) =~= text@ + t);
            }
        }
    }
    None
}

/// A character that names without quotes are made of.
pub open spec fn is_name(c: char) -> bool {
    is_word(c) || c == '$' || c as u32 >= 0x80
}

/// The number of characters of the bare name that `s` starts with.
pub open spec fn name_len(s: Seq<char>) -> nat
    decreases s.len(),
{
    if s.len() > 0 && is_name(s[0]) {
        1 + name_len(s.skip(1))
    } else {
        0
    }
}

/// The number of characters of `s` before a closing bracket.
pub open spec fn bracket_len(s: Seq<char>) -> nat
    decreases s.len(),
{
    if s.len() > 0 && s[0] != ']' {
        1 + bracket_len(s.skip(1))
    } else {
        0
    }
}

/// Whether a name may stand between two of that character.
pub open spec fn is_quote(c: char) -> bool {
    c == '"' || c == '\'' || c == '`'
}

/// The name that `s` starts with, bare, quoted or in brackets, and what
/// follows it.
pub open spec fn name_of(s: Seq<char>) -> (Seq<char>, Seq<char>) {
    let text = skip_blank(s);
    if text.len() > 0 && is_quote(text[0]) {
        match read_quoted(text.skip(1), text[0]) {
            Some((name, rest)) => (name, rest),
            None => (seq![], text),
        }
    } else if text.len() > 0 && text[0] == '[' {
        let n = bracket_len(text.skip(1)) as int;
        let end = if n + 2 <= text.len() {
            n + 2
        } else {
            n + 1
        };
        (text.subrange(1, n + 1), text.skip(end))
    } else {
        let n = name_len(text) as int;
        (text.take(n), text.skip(n))
    }
}

/// The name that `s` starts with, in upper case: names that differ in case
/// alone are the same.
pub open spec fn first_name(s: Seq<char>) -> Seq<char> {
    uppercase(name_of(s).0)
}

/// What follows the name that `s` starts with.
pub open spec fn after_name(s: Seq<char>) -> Seq<char> {
    name_of(s).1
}

fn name_end(chars: &[char], from: usize) -> (r: usize)
    requires
        from <= chars@.len(),
    ensures
        from <= r <= chars@.len(),
        r - from == name_len(chars@.skip(from as int)),
{
    let mut i: usize = from;
    while i < chars.len()
        invariant
            from <= i <= chars@.len(),
            i - from + name_len(chars@.skip(i as int)) == name_len(chars@.skip(from as int)),
        decreases chars@.len() - i,
    {
        let c: char = chars[i];
        assert(chars@.skip(i as int).skip(1) =~= chars@.skip(i + 1));
        if !((c >= 'a' && c <= 'z') || (c >= 'A' && c <= 'Z') || (c >= '0' && c <= '9') || c == '_'
            || c == '$' || c as u32 >= 0x80) {
            return i;
        }
        i = i + 1;
    }
    i
}

fn bracket_end(chars: &[char], from: usize) -> (r: usize)
    requires
        from <= chars@.len(),
    ensures
        from <= r <= chars@.len(),
        r - from == bracket_len(chars@.skip(from as int)),
{
    let mut i: usize = from;
    while i < chars.len()
        invariant
            from <= i <= chars@.len(),
            i - from + bracket_len(chars@.skip(i as int)) == bracket_len(chars@.skip(from as int)),
        decreases chars@.len() - i,
    {
        assert(chars@.skip(i as int).skip(1) =~= chars@.skip(i + 1));
        if chars[i] == ']' {
            return i;
        }
        i = i + 1;
    }
    i
}

fn upper_text(chars: &[char]) -> (r: String)
    ensures
        r@ == uppercase(chars@),
{
    let mut r = String::new();
    let mut i: usize = 0;
    while i < chars.len()
        invariant
            i <= chars@.len(),
            r@ == uppercase(chars@.take(i as int)),
        decreases chars@.len() - i,
    {
        r.push(upper_char(chars[i]));
        i = i + 1;
        assert(r@ =~= uppercase(chars@.take(i as int)));
    }
    assert(chars@.take(i as int) =~= chars@);
    r
}

/// Reads the name at `from`, in upper case, and where it ends.
pub fn read_name(chars: &[char], from: usize) -> (r: (String, usize))
    requires
        from <= chars@.len(),
    ensures
        from <= r.1 <= chars@.len(),
        r.0@ == first_name(chars@.skip(from as int)),
        chars@.skip(r.1 as int) == after_name(chars@.skip(from as int)),
{
    let start: usize = skip_blank_at(chars, from);
    let ghost text = chars@.skip(start as int);
    if start < chars.len() && (chars[start] == '"' || chars[start] == '\'' || chars[start] == '`') {
        assert(text.skip(1) =~= chars@.skip(start + 1));
        match read_quoted_at(chars, start + 1, chars[start]) {
            Some((name, end)) => (upper_text(name.as_slice()), end),
            None => {
                let empty = String::new();
                assert(empty@ =~= uppercase(Seq::<char>::empty()));
                (empty, start)
            },
        }
    } else if start < chars.len() && chars[start] == '[' {
        assert(text.skip(1) =~= chars@.skip(start + 1));
        let close: usize = bracket_end(chars, start + 1);
        let name = vstd::slice::slice_subrange(chars, start + 1, close);
        assert(name@ =~= text.subrange(1, close - start));
        let end: usize = if close < chars.len() {
            close + 1
        } else {
            close
        };
        assert(chars@.skip(end as int) =~= text.skip(end - start));
        (upper_text(name), end)
    } else {
        let end: usize = name_end(chars, start);
        let name = vstd::slice::slice_subrange(chars, start, end);
        assert(name@ =~= text.take(end - start));
        assert(chars@.skip(end as int) =~= text.skip(end - start));
        (upper_text(name), end)
    }
}

/// Quotes an identifier; embedded double quotes are doubled.
pub fn quote_ident(s: &str) -> (r: String)
    ensures
        r@ == quoted(s@, '"'),
{
    let mut r = String::new();
    push_quoted(&mut r, s, '"');
    assert(r@ =~= quoted(s@, '"'));
    r
}

// ---------------------------------------------------------------------------
// Literals
// ---------------------------------------------------------------------------

/// Two hexadecimal digits per byte.
pub open spec fn hex(b: Seq<u8>) -> Seq<char>
    decreases b.len(),
{
    if b.len() == 0 {
        seq![]
    } else {
        hex(b.drop_last()).push(digit((b.last() / 16) as int)).push(digit((b.last() % 16) as int))
    }
}

/// The value of a hexadecimal digit, if it is one.
pub open spec fn digit_value(c: char) -> Option<int> {
    if '0' <= c <= '9' {
        Some(c as int - 48)
    } else if 'a' <= c <= 'f' {
        Some(c as int - 87)
    } else {
        None
    }
}

/// The bytes that hexadecimal digits stand for, two digits each.
pub open spec fn read_hex(s: Seq<char>) -> Option<Seq<u8>>
    decreases s.len(),
{
    if s.len() == 0 {
        Some(seq![])
    } else if s.len() == 1 {
        None
    } else {
        match (
            read_hex(s.take(s.len() - 2)),
            digit_value(s[s.len() - 2]),
            digit_value(s[s.len() - 1]),
        ) {
            (Some(before), Some(high), Some(low)) => Some(before.push((16 * high + low) as u8)),
            _ => None,
        }
    }
}

/// Bytes read back from their hexadecimal digits.
pub proof fn hex_reads_back(b: Seq<u8>)
    ensures
        read_hex(hex(b)) == Some(b),
    decreases b.len(),
{
    if b.len() > 0 {
        let s = hex(b);
        hex_reads_back(b.drop_last());
        assert(s.take(s.len() - 2) =~= hex(b.drop_last()));
        assert(b.drop_last().push(b.last()) =~= b);
    }
}

/// Appends bytes in hexadecimal digits.
pub fn push_hex(out: &mut String, b: &[u8])
    ensures
        final(out)@ == old(out)@ + hex(b@),
{
    let ghost head = out@;
    let mut i: usize = 0;
    assert(b@.take(0) =~= seq![]);
    assert(out@ =~= head + hex(b@.take(0)));
    while i < b.len()
        invariant
            i <= b@.len(),
            out@ == head + hex(b@.take(i as int)),
        decreases b@.len() - i,
    {
        out.push(digit_char(b[i] / 16));
        out.push(digit_char(b[i] % 16));
        assert(b@.take(i + 1).drop_last() =~= b@.take(i as int));
        assert(out@ =~= head + hex(b@.take(i + 1)));
        i = i + 1;
    }
    assert(b@.take(i as int) =~= b@);
}

/// Whether the bits are those of a double that is not a number.
pub open spec fn is_nan(bits: u64) -> bool {
    (bits / 0x10_0000_0000_0000) % 0x800 == 0x7ff && bits % 0x10_0000_0000_0000 != 0
}

pub open spec fn has_char(s: Seq<char>, c: char) -> bool {
    exists|i: int| 0 <= i < s.len() && s[i] == c
}

/// The literal of a double of those bits, whose shortest decimal form is
/// `decimal`: always one that SQLite reads as a real number, but for what is
/// not a number, which it stores as NULL.
pub open spec fn real_literal_of(bits: u64, decimal: Seq<char>) -> Seq<char> {
    if is_nan(bits) {
        "NULL"@
    } else if bits == 0x7ff0_0000_0000_0000 {
        "9e999"@
    } else if bits == 0xfff0_0000_0000_0000 {
        "-9e999"@
    } else if bits == 0x8000_0000_0000_0000 {
        "-0.0"@
    } else if has_char(decimal, '.') || has_char(decimal, 'e') || has_char(decimal, 'E') {
        decimal
    } else {
        decimal + ".0"@
    }
}

/// The literal of a double; see [`real_literal_of`].
pub fn real_literal(bits: u64, decimal: &str) -> (r: String)
    ensures
        r@ == real_literal_of(bits, decimal@),
{
    if (bits / 0x10_0000_0000_0000) % 0x800 == 0x7ff && bits % 0x10_0000_0000_0000 != 0 {
        return "NULL".to_owned();
    }
    if bits == 0x7ff0_0000_0000_0000 {
        return "9e999".to_owned();
    }
    if bits == 0xfff0_0000_0000_0000 {
        return "-9e999".to_owned();
    }
    if bits == 0x8000_0000_0000_0000 {
        return "-0.0".to_owned();
    }
    let chars = chars_of(decimal);
    let mut i: usize = 0;
    while i < chars.len()
        invariant
            i <= chars@.len(),
            chars@ == decimal@,
            !is_nan(bits) && bits != 0x7ff0_0000_0000_0000 && bits != 0xfff0_0000_0000_0000 && bits
                != 0x8000_0000_0000_0000,
            forall|k: int|
                0 <= k < i ==> chars@[k] != '.' && chars@[k] != 'e' && chars@[k] != 'E',
        decreases chars@.len() - i,
    {
        let c: char = chars[i];
        if c == '.' || c == 'e' || c == 'E' {
            assert(decimal@[i as int] == c);
            return decimal.to_owned();
        }
        i = i + 1;
    }
    let mut r = decimal.to_owned();
    r.append(".0");
    r
}

/// The texts of doubles by their bits: for each, the shortest decimal form
/// that reads back as the same double.
pub open spec fn decimals(texts: Map<u64, String>) -> Map<u64, Seq<char>> {
    texts.map_values(|s: String| s@)
}

/// The literal of bytes.
pub open spec fn blob_literal_of(b: Seq<u8>) -> Seq<char> {
    seq!['X'] + (seq!['\''] + hex(b) + seq!['\''])
}

fn push_blob_literal(out: &mut String, b: &[u8])
    ensures
        final(out)@ == old(out)@ + blob_literal_of(b@),
{
    out.push('X');
    out.push('\'');
    push_hex(out, b);
    out.push('\'');
    assert(out@ =~= old(out)@ + blob_literal_of(b@));
}

/// The literal of a text, given by its bytes.
pub open spec fn cast_literal_of(b: Seq<u8>) -> Seq<char> {
    "CAST("@ + blob_literal_of(b) + " AS TEXT)"@
}

fn push_cast_literal(out: &mut String, b: &[u8])
    ensures
        final(out)@ == old(out)@ + cast_literal_of(b@),
{
    out.append("CAST(");
    push_blob_literal(out, b);
    out.append(" AS TEXT)");
    assert(out@ =~= old(out)@ + cast_literal_of(b@));
}

/// The literal of a text. One that holds a NUL is given by its bytes, as SQL
/// text ends at a NUL.
pub open spec fn text_literal_of(s: Seq<char>) -> Seq<char> {
    if s.contains('\0') {
        cast_literal_of(encode_utf8(s))
    } else {
        quoted(s, '\'')
    }
}

fn holds_nul(s: &str) -> (r: bool)
    ensures
        r == s@.contains('\0'),
{
    let chars = chars_of(s);
    let mut i: usize = 0;
    while i < chars.len()
        invariant
            i <= chars@.len(),
            chars@ == s@,
            forall|k: int| 0 <= k < i ==> chars@[k] != '\0',
        decreases chars@.len() - i,
    {
        if chars[i] == '\0' {
            assert(chars@[i as int] == '\0');
            return true;
        }
        i = i + 1;
    }
    false
}

fn push_text_literal(out: &mut String, s: &str)
    ensures
        final(out)@ == old(out)@ + text_literal_of(s@),
{
    if holds_nul(s) {
        push_cast_literal(out, s.as_bytes());
    } else {
        push_quoted(out, s, '\'');
    }
}

/// The literal of a value. `reals` gives the doubles' decimal forms.
pub open spec fn literal_of(v: Option<Scalar>, reals: Map<u64, Seq<char>>) -> Seq<char> {
    match v {
        None => "NULL"@,
        Some(Scalar::Null) => "NULL"@,
        Some(Scalar::Integer(i)) => signed_decimal(i as int),
        Some(Scalar::Float(bits)) => real_literal_of(bits, reals[bits]),
        Some(Scalar::Text(s)) => text_literal_of(s),
        Some(Scalar::Blob(b)) => blob_literal_of(b),
        Some(Scalar::RawText(b)) => cast_literal_of(b),
    }
}

/// Whether `reals` has what the literal of `v` needs.
pub open spec fn renderable(v: Option<Scalar>, reals: Map<u64, Seq<char>>) -> bool {
    v matches Some(Scalar::Float(bits)) ==> reals.contains_key(bits)
}

/// Renders a binlog value as a deterministic SQL literal.
pub fn sql_literal(v: &Value, reals: &HashMap<u64, String>) -> (r: String)
    requires
        renderable(v@, decimals(reals@)),
    ensures
        r@ == literal_of(v@, decimals(reals@)),
{
    let mut r = String::new();
    match &v.value {
        None => {
            return "NULL".to_owned();
        },
        Some(value::Value::Null(_)) => {
            return "NULL".to_owned();
        },
        Some(value::Value::Integer(i)) => {
            push_signed(&mut r, *i);
        },
        Some(value::Value::Float(bits)) => {
            assert(reals@.contains_key(*bits));
            match reals.get(bits) {
                Some(text) => {
                    return real_literal(*bits, text.as_str());
                },
                None => {},
            }
        },
        Some(value::Value::Text(s)) => {
            push_text_literal(&mut r, s.as_str());
        },
        Some(value::Value::Blob(b)) => {
            push_blob_literal(&mut r, b.as_slice());
        },
        Some(value::Value::RawText(b)) => {
            push_cast_literal(&mut r, b.as_slice());
        },
    }
    assert(r@ =~= literal_of(v@, decimals(reals@)));
    r
}

/// The items with `sep` between each two.
pub open spec fn joined(items: Seq<Seq<char>>, sep: Seq<char>) -> Seq<char>
    decreases items.len(),
{
    if items.len() == 0 {
        seq![]
    } else if items.len() == 1 {
        items[0]
    } else {
        joined(items.drop_last(), sep) + sep + items.last()
    }
}

} // verus!
