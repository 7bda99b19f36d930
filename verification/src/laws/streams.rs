//! Streams: a baton says which use of which stream it is for, only the server
//! that made it takes it, and a stream that waits is found under its next baton
//! until it was idle for too long.

use crate::error::Refusal;
use crate::stream::{
    base64url_bytes, baton_text, be_reads_back, claim, from_be, hmac_sha256, parse_baton, payload,
    rested, swept, to_be, withdrawn, StreamEntry,
};
use crate::wire::{from_le, le_round_trip, pow256, to_le};
use vstd::prelude::*;

verus! {

proof fn le_is_written_again(b: Seq<u8>)
    ensures
        to_le(from_le(b), b.len()) == b,
        from_le(b) < pow256(b.len()),
    decreases b.len(),
{
    if b.len() > 0 {
        le_is_written_again(b.skip(1));
        let v = from_le(b);
        let rest = from_le(b.skip(1));
        assert(v == b[0] as nat + 256 * rest);
        assert(v % 256 == b[0] as nat && v / 256 == rest);
        assert(pow256(b.len()) == 256 * pow256((b.len() - 1) as nat));
        assert(to_le(v, b.len()) =~= b);
    } else {
        assert(to_le(from_le(b), 0) =~= b);
    }
}

proof fn be_is_written_again(b: Seq<u8>)
    requires
        b.len() == 8,
    ensures
        to_be(from_be(b)) == b,
{
    le_is_written_again(b.reverse());
    reveal_with_fuel(pow256, 9);
    assert(b.reverse().reverse() =~= b);
}

/// A number's eight bytes hold it with the most significant first.
pub proof fn numbers_are_big_endian(v: u64)
    ensures
        ({
            let b = to_be(v);
            &&& b.len() == 8
            &&& v == b[0] * 0x100_0000_0000_0000 + b[1] * 0x1_0000_0000_0000 + b[2]
                * 0x100_0000_0000 + b[3] * 0x1_0000_0000 + b[4] * 0x100_0000 + b[5] * 0x1_0000
                + b[6] * 0x100 + b[7]
        }),
{
    let le = to_le(v as nat, 8);
    be_reads_back(v);
    reveal_with_fuel(from_le, 9);
    reveal_with_fuel(pow256, 9);
    le_round_trip(v as nat, 8);
    let b = to_be(v);
    assert(le =~= b.reverse());
    let s1 = le.skip(1);
    let s2 = s1.skip(1);
    let s3 = s2.skip(1);
    let s4 = s3.skip(1);
    let s5 = s4.skip(1);
    let s6 = s5.skip(1);
    let s7 = s6.skip(1);
    let s8 = s7.skip(1);
    assert(s8.len() == 0);
    assert(from_le(s8) == 0);
    assert(from_le(s7) == le[7] as nat);
    assert(from_le(s6) == le[6] as nat + 256 * from_le(s7));
    assert(from_le(s5) == le[5] as nat + 256 * from_le(s6));
    assert(from_le(s4) == le[4] as nat + 256 * from_le(s5));
    assert(from_le(s3) == le[3] as nat + 256 * from_le(s4));
    assert(from_le(s2) == le[2] as nat + 256 * from_le(s3));
    assert(from_le(s1) == le[1] as nat + 256 * from_le(s2));
    assert(from_le(le) == le[0] as nat + 256 * from_le(s1));
}

/// A baton is taken exactly where it is the text of 48 bytes: the stream's id and
/// the number of its use, and the HMAC of these under the server's own key. What
/// it then says is that id and that number.
pub proof fn only_genuine_batons_are_taken(key: Seq<u8>, baton: Seq<char>, id: u64, seq: u64)
    ensures
        parse_baton(key, baton) == Ok::<(u64, u64), Refusal>((id, seq)) <==> base64url_bytes(baton)
            == Some(to_be(id) + to_be(seq) + hmac_sha256(key, to_be(id) + to_be(seq)))
            && hmac_sha256(key, to_be(id) + to_be(seq)).len() == 32,
        parse_baton(key, baton) matches Err(f) ==> f.status == 400 && f.code == "BATON_INVALID"@,
{
    be_reads_back(id);
    be_reads_back(seq);
    let said = to_be(id) + to_be(seq);
    let mac = hmac_sha256(key, said);
    if let Some(data) = base64url_bytes(baton) {
        if data == said + mac && mac.len() == 32 {
            assert(data.subrange(0, 16) =~= said);
            assert(data.subrange(16, 48) =~= mac);
            assert(data.subrange(0, 8) =~= to_be(id));
            assert(data.subrange(8, 16) =~= to_be(seq));
        }
        if parse_baton(key, baton) == Ok::<(u64, u64), Refusal>((id, seq)) {
            be_is_written_again(data.subrange(0, 8));
            be_is_written_again(data.subrange(8, 16));
            assert(data.subrange(0, 16) =~= said);
            assert(data =~= said + data.subrange(16, 48));
        }
    }
}

/// Batons of different uses differ, and so do those of different streams.
pub proof fn batons_differ(key: Seq<u8>, id: u64, seq: u64, other: u64, later: u64)
    requires
        base64url_bytes(baton_text(key, id, seq)) == Some(
            payload(id, seq) + hmac_sha256(key, payload(id, seq)),
        ),
        base64url_bytes(baton_text(key, other, later)) == Some(
            payload(other, later) + hmac_sha256(key, payload(other, later)),
        ),
        baton_text(key, id, seq) == baton_text(key, other, later),
    ensures
        id == other,
        seq == later,
{
    be_reads_back(id);
    be_reads_back(seq);
    be_reads_back(other);
    be_reads_back(later);
    let a = payload(id, seq) + hmac_sha256(key, payload(id, seq));
    let b = payload(other, later) + hmac_sha256(key, payload(other, later));
    assert(a.subrange(0, 8) =~= to_be(id));
    assert(b.subrange(0, 8) =~= to_be(other));
    assert(a.subrange(8, 16) =~= to_be(seq));
    assert(b.subrange(8, 16) =~= to_be(later));
}

/// A stream that is released waits, with its connection, under its own id for
/// the use after the one it was at, and the others wait as before: the next
/// baton opens it, and no other baton of its id does.
pub proof fn released_streams_are_found<H>(
    streams: Map<u64, StreamEntry<H>>,
    id: u64,
    entry: StreamEntry<H>,
    now: u64,
    other: u64,
    seq: u64,
)
    ensures
        ({
            let after = rested(streams, id, entry, now);
            let next = if entry.baton_seq == u64::MAX {
                0u64
            } else {
                (entry.baton_seq + 1) as u64
            };
            &&& claim(after, id, next) matches Ok(found) && found.handle == entry.handle
                && found.last_used == now && found.baton_seq == next
            &&& seq != next ==> (claim(after, id, seq) matches Err(f) && f.status == 400 && f.code
                == "BATON_REUSED"@)
            &&& other != id ==> claim(after, other, seq) == claim(streams, other, seq)
        }),
{
}

/// A baton opens the stream that it names, at the use that it names, and no
/// other; without such a stream it is refused.
pub proof fn batons_open_their_stream<H>(
    streams: Map<u64, StreamEntry<H>>,
    id: u64,
    seq: u64,
)
    ensures
        match claim(streams, id, seq) {
            Ok(entry) => streams.contains_key(id) && entry == streams[id] && entry.baton_seq == seq,
            Err(f) => f.status == 400 && if streams.contains_key(id) {
                streams[id].baton_seq != seq && f.code == "BATON_REUSED"@
            } else {
                f.code == "BATON_INVALID"@
            },
        },
{
}

/// A sweep removes the streams that have waited for more than ten seconds, and
/// leaves the others as they are.
pub proof fn streams_wait_ten_seconds<H>(
    streams: Map<u64, StreamEntry<H>>,
    now: u64,
    id: u64,
)
    ensures
        swept(streams, now).contains_key(id) <==> streams.contains_key(id) && now
            - streams[id].last_used <= 10_000,
        swept(streams, now).contains_key(id) ==> swept(streams, now)[id] == streams[id],
{
}

/// A stream that a baton is given for no longer waits, whether the baton was the
/// right one or not; the others wait as before.
pub proof fn given_streams_are_withdrawn<H>(
    streams: Map<u64, StreamEntry<H>>,
    id: u64,
    seq: u64,
    other: u64,
)
    ensures
        claim(withdrawn(streams, id), id, seq) is Err,
        other != id ==> claim(withdrawn(streams, id), other, seq) == claim(streams, other, seq),
        !streams.contains_key(id) ==> withdrawn(streams, id) == streams,
{
    if !streams.contains_key(id) {
        assert(withdrawn(streams, id) =~= streams);
    }
}

} // verus!
