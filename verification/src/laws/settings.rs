//! Settings and numbers: what is written is what is meant.

use crate::config::{settings, Env};
use crate::text::{
    all_digits, decimal, digits_value, padded, padded_reads_back, signed_decimal, signed_value,
    unsigned_value,
};
use vstd::prelude::*;

verus! {

/// What the environment says is what is set, and nothing else is: without a word
/// of it the server listens on port 8080, keeps its data in `./data`, and has
/// segments of 16 MiB and 256 MiB of log.
pub proof fn settings_are_what_is_asked(env: Env)
    ensures
        settings(env) matches Ok(s) ==> {
            &&& env.addr matches Some(addr) ==> s.addr == addr@
            &&& env.addr is None ==> s.addr == "0.0.0.0:8080"@
            &&& env.db_path matches Some(path) ==> s.db_path == path@
            &&& env.db_path is None ==> s.db_path == "./data"@
            &&& env.max_segment_bytes matches Some(text) ==> unsigned_value(text@) == Some(
                s.max_segment_bytes,
            )
            &&& env.max_segment_bytes is None ==> s.max_segment_bytes == 16 * 1024 * 1024
            &&& env.max_binlog_bytes matches Some(text) ==> unsigned_value(text@) == Some(
                s.max_binlog_bytes,
            )
            &&& env.max_binlog_bytes is None ==> s.max_binlog_bytes == 256 * 1024 * 1024
        },
        settings(env) is Err <==> (env.max_segment_bytes matches Some(text) && unsigned_value(text@)
            is None) || (env.max_binlog_bytes matches Some(text) && unsigned_value(text@) is None),
{
}

/// A number of one digit is that digit, and each further digit stands for ten
/// times less than the one before it.
pub proof fn digits_have_their_places(v: nat, d: nat)
    requires
        d < 10,
    ensures
        decimal(d) == seq![(d + 48) as char],
        v > 0 ==> decimal(10 * v + d) == decimal(v) + decimal(d),
{
    assert(decimal(d) =~= seq![(d + 48) as char]);
    if v > 0 {
        let n = 10 * v + d;
        assert(n / 10 == v && n % 10 == d);
        assert(decimal(n) =~= decimal(v) + decimal(d));
    }
}

/// What a number is written as is read as that number, with or without zeros or
/// a plus sign before it; past 64 bits it is none.
pub proof fn numbers_are_read_as_written(v: nat, width: nat)
    requires
        v <= u64::MAX,
    ensures
        unsigned_value(decimal(v)) == Some(v),
        unsigned_value(padded(v, width)) == Some(v),
        unsigned_value(seq!['+'] + decimal(v)) == Some(v),
{
    padded_reads_back(v, 0);
    padded_reads_back(v, width);
    let s = seq!['+'] + decimal(v);
    assert(s.skip(1) =~= decimal(v));
    assert(decimal(v).len() > 0 && decimal(v)[0] != '+') by {
        digits_are_digits(v);
    }
}

proof fn digits_are_digits(v: nat)
    ensures
        decimal(v).len() > 0,
        '0' <= decimal(v)[0] <= '9',
    decreases v,
{
    if v >= 10 {
        digits_are_digits(v / 10);
    }
}

/// A text is read as a number only where it is made of digits alone, behind at
/// most one plus sign, and its last digit counts once and the rest tenfold.
pub proof fn only_digits_are_numbers(s: Seq<char>, c: char)
    ensures
        unsigned_value(s) is Some ==> s.len() > 0 && forall|i: int|
            0 <= i < s.len() ==> '0' <= #[trigger] s[i] <= '9' || (i == 0 && s[0] == '+' && s.len()
                > 1),
        unsigned_value(seq![]) is None,
        unsigned_value(s) matches Some(v) ==> ('0' <= c <= '9' && 10 * v + (c as int - 48)
            <= u64::MAX ==> unsigned_value(s.push(c)) == Some((10 * v + (c as int - 48)) as nat)),
        '0' <= c <= '9' ==> unsigned_value(seq![c]) == Some((c as int - 48) as nat),
{
    let d = crate::text::unsigned_digits(s);
    if unsigned_value(s) is Some {
        assert forall|i: int| 0 <= i < s.len() implies '0' <= #[trigger] s[i] <= '9' || (i == 0
            && s[0] == '+' && s.len() > 1) by {
            if s[0] == '+' {
                if i > 0 {
                    assert(d[i - 1] == s[i]);
                }
            } else {
                assert(d[i] == s[i]);
            }
        }
        if '0' <= c <= '9' {
            let more = crate::text::unsigned_digits(s.push(c));
            assert(more =~= d.push(c));
            assert(more.drop_last() =~= d);
            assert(all_digits(more)) by {
                assert forall|i: int| 0 <= i < more.len() implies crate::text::is_digit(
                    #[trigger] more[i],
                ) by {
                    if i < d.len() {
                        assert(more[i] == d[i]);
                    }
                }
            }
        }
    }
    let one = seq![c];
    assert(one.drop_last() =~= Seq::<char>::empty());
    assert(digits_value(one.drop_last()) == 0);
}

/// A negative number is its magnitude behind a minus sign, and is read as
/// written.
pub proof fn signed_numbers_are_read_as_written(v: int)
    requires
        i64::MIN <= v <= i64::MAX,
    ensures
        v >= 0 ==> signed_decimal(v) == decimal(v as nat),
        v < 0 ==> signed_decimal(v) == seq!['-'] + decimal((-v) as nat),
        signed_value(signed_decimal(v)) == Some(v),
{
    crate::text::signed_decimal_reads_back(v);
}

} // verus!
