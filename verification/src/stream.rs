//! Hrana-over-HTTP stream state (baton support).
//!
//! A baton is an opaque token that lets a client keep one stream (a database
//! connection with its transaction and stored SQL) alive across requests:
//!
//! - the request body carries `baton`; the response body returns the next
//!   baton (or none when the stream was closed),
//! - the baton is `base64url-nopad(payload || HMAC-SHA256(payload))` where
//!   payload = `stream_id (8B BE) || baton_seq (8B BE)`, keyed by a random
//!   per-process key,
//! - the sequence number is incremented per acquire, so a baton can only be
//!   used once,
//! - streams expire after a short inactivity timeout.

use crate::error::{AppError, Refusal};
use crate::text::{decimal, push_decimal};
use crate::wire::{from_le, le_round_trip, pow256, to_le};
use base64::engine::general_purpose::URL_SAFE_NO_PAD;
use base64::Engine;
use hmac::{Hmac, Mac};
use sha2::Sha256;
use std::collections::HashMap;
use vstd::prelude::*;
use vstd::std_specs::iter::IteratorSpec;

verus! {

broadcast use vstd::std_specs::hash::group_hash_axioms;

/// How long an idle stream is kept before it expires, in milliseconds.
pub const STREAM_TTL_MS: u64 = 10_000;

/// How often the registry is swept, in milliseconds.
pub const SWEEP_INTERVAL_MS: u64 = 2_000;

// ---------------------------------------------------------------------------
// Outside calls
// ---------------------------------------------------------------------------

/// The URL-safe base64 text of bytes, without padding.
pub uninterp spec fn base64url(data: Seq<u8>) -> Seq<char>;

/// The bytes that a URL-safe base64 text without padding stands for, if it is
/// one.
pub uninterp spec fn base64url_bytes(text: Seq<char>) -> Option<Seq<u8>>;

/// The HMAC-SHA256 of a message under a key.
pub uninterp spec fn hmac_sha256(key: Seq<u8>, message: Seq<u8>) -> Seq<u8>;

/// `Engine::encode` of base64's `URL_SAFE_NO_PAD`: the text depends on the
/// bytes alone, and decodes to them again.
#[verifier::external_body]
fn encode_base64url(data: &[u8]) -> (r: String)
    requires
        data@.len() <= isize::MAX / 2,
    ensures
        r@ == base64url(data@),
        base64url_bytes(r@) == Some(data@),
{
    URL_SAFE_NO_PAD.encode(data)
}

/// `Engine::decode` of base64's `URL_SAFE_NO_PAD`: whether a text decodes, and
/// to which bytes, depends on the text alone.
#[verifier::external_body]
fn decode_base64url(text: &str) -> (r: Option<Vec<u8>>)
    ensures
        match base64url_bytes(text@) {
            Some(bytes) => r is Some && r->0@ == bytes,
            None => r is None,
        },
{
    URL_SAFE_NO_PAD.decode(text).ok()
}

/// `Mac::finalize` of hmac's `Hmac<Sha256>`: 32 bytes that depend on the key
/// and on the message alone. A key of any length is taken.
#[verifier::external_body]
fn compute_mac(key: &[u8], message: &[u8]) -> (r: Vec<u8>)
    ensures
        r@ == hmac_sha256(key@, message@),
        r@.len() == 32,
{
    let mut mac = <Hmac<Sha256> as Mac>::new_from_slice(key).unwrap();
    mac.update(message);
    mac.finalize().into_bytes().to_vec()
}

/// `Mac::verify_slice` of hmac's `Hmac<Sha256>`: whether a tag is the whole of
/// what `Mac::finalize` gives for the same key and message.
#[verifier::external_body]
fn verify_mac(key: &[u8], message: &[u8], tag: &[u8]) -> (r: bool)
    ensures
        r == (tag@ == hmac_sha256(key@, message@)),
{
    let mut mac = <Hmac<Sha256> as Mac>::new_from_slice(key).unwrap();
    mac.update(message);
    mac.verify_slice(tag).is_ok()
}

/// `rand::random`: any number may come.
#[verifier::external_body]
fn random_u64() -> (r: u64) {
    rand::random()
}

// ---------------------------------------------------------------------------
// Batons
// ---------------------------------------------------------------------------

/// The eight bytes of a number, most significant first.
pub open spec fn to_be(v: u64) -> Seq<u8> {
    to_le(v as nat, 8).reverse()
}

pub open spec fn from_be(bytes: Seq<u8>) -> u64 {
    from_le(bytes.reverse()) as u64
}

/// What a baton says: a stream's id, and which use of the stream it is for.
pub open spec fn payload(id: u64, seq: u64) -> Seq<u8> {
    to_be(id) + to_be(seq)
}

pub open spec fn baton_refusal(message: Seq<char>) -> Refusal {
    Refusal { status: 400, code: "BATON_INVALID"@, message }
}

/// What the decoded bytes of a baton say. `genuine` tells whether the last 32
/// bytes are the MAC of those before.
pub open spec fn read_baton(data: Option<Seq<u8>>, genuine: bool) -> Result<(u64, u64), Refusal> {
    match data {
        None => Err(baton_refusal("cannot base64-decode baton"@)),
        Some(data) => if data.len() != 48 {
            Err(
                baton_refusal(
                    "baton has invalid size of "@ + decimal(data.len()) + " bytes"@,
                ),
            )
        } else if !genuine {
            Err(baton_refusal("invalid MAC on baton"@))
        } else {
            Ok((from_be(data.subrange(0, 8)), from_be(data.subrange(8, 16))))
        },
    }
}

/// Whether the bytes end with the MAC of those before.
pub open spec fn is_genuine(key: Seq<u8>, data: Seq<u8>) -> bool {
    data.len() == 48 && data.subrange(16, 48) == hmac_sha256(key, data.subrange(0, 16))
}

/// What a baton says, under a key.
pub open spec fn parse_baton(key: Seq<u8>, baton: Seq<char>) -> Result<(u64, u64), Refusal> {
    match base64url_bytes(baton) {
        Some(data) => read_baton(Some(data), is_genuine(key, data)),
        None => read_baton(None, false),
    }
}

fn push_be(out: &mut Vec<u8>, v: u64)
    ensures
        final(out)@ == old(out)@ + to_be(v),
{
    let mut low: Vec<u8> = Vec::new();
    let mut rest: u64 = v;
    let mut i: usize = 0;
    while i < 8
        invariant
            i <= 8,
            low@ + to_le(rest as nat, (8 - i) as nat) == to_le(v as nat, 8),
            low@.len() == i,
        decreases 8 - i,
    {
        let ghost before = low@;
        let ghost was = rest;
        low.push((rest % 256) as u8);
        rest = rest / 256;
        i = i + 1;
        assert(low@ + to_le(rest as nat, (8 - i) as nat) =~= before + to_le(
            was as nat,
            (9 - i) as nat,
        ));
    }
    assert(to_le(rest as nat, 0) =~= seq![]);
    assert(low@ =~= to_le(v as nat, 8));
    let ghost start = out@;
    let ghost all = low@.reverse();
    assert(out@ =~= start + all.take(0));
    while i > 0
        invariant
            i <= 8,
            low@.len() == 8,
            all == low@.reverse(),
            out@ == start + all.take(8 - i),
        decreases i,
    {
        i = i - 1;
        out.push(low[i]);
        assert(all[7 - i] == low@[i as int]);
        assert(out@ =~= start + all.take(8 - i));
    }
    assert(all.take(8) =~= all);
}

fn read_be(bytes: &[u8]) -> (v: u64)
    requires
        bytes@.len() == 8,
    ensures
        v == from_be(bytes@),
{
    let ghost all = bytes@.reverse();
    let mut v: u64 = 0;
    let mut i: usize = 0;
    assert(all.skip(8) =~= seq![]);
    while i < 8
        invariant
            i <= 8,
            bytes@.len() == 8,
            all == bytes@.reverse(),
            v == from_le(all.skip(8 - i)),
            v < pow256(i as nat),
        decreases 8 - i,
    {
        proof {
            assert(all.skip(7 - i).skip(1) =~= all.skip(8 - i));
            assert(all.skip(7 - i)[0] == bytes@[i as int]);
            reveal_with_fuel(pow256, 9);
        }
        v = v * 256 + bytes[i] as u64;
        i = i + 1;
    }
    assert(all.skip(0) =~= all);
    v
}

pub(crate) proof fn be_reads_back(v: u64)
    ensures
        to_be(v).len() == 8,
        from_be(to_be(v)) == v,
{
    reveal_with_fuel(pow256, 9);
    le_round_trip(v as nat, 8);
    assert(to_be(v).reverse() =~= to_le(v as nat, 8));
}

/// A baton's bytes: what it says, then the MAC of that.
pub fn baton_bytes(id: u64, seq: u64, mac: &[u8]) -> (r: Vec<u8>)
    ensures
        r@ == payload(id, seq) + mac@,
{
    let mut data: Vec<u8> = Vec::new();
    push_be(&mut data, id);
    push_be(&mut data, seq);
    data.extend_from_slice(mac);
    assert(data@ =~= payload(id, seq) + mac@);
    data
}

/// What a baton says whose decoded bytes are `data`. `genuine` tells whether
/// its MAC was found right.
pub fn check_baton(data: &Option<Vec<u8>>, genuine: bool) -> (r: Result<(u64, u64), AppError>)
    ensures
        match read_baton(
            match data {
                Some(d) => Some(d@),
                None => None,
            },
            genuine,
        ) {
            Ok(said) => r == Ok::<_, AppError>(said),
            Err(f) => r matches Err(e) && e@ == f,
        },
{
    match data {
        None => Err(AppError::bad_request("BATON_INVALID", "cannot base64-decode baton")),
        Some(data) => {
            if data.len() != 48 {
                let mut message = "baton has invalid size of ".to_owned();
                push_decimal(&mut message, data.len() as u64);
                message.append(" bytes");
                return Err(AppError::bad_request("BATON_INVALID", message.as_str()));
            }
            if !genuine {
                return Err(AppError::bad_request("BATON_INVALID", "invalid MAC on baton"));
            }
            let id: u64 = read_be(vstd::slice::slice_subrange(data.as_slice(), 0, 8));
            let seq: u64 = read_be(vstd::slice::slice_subrange(data.as_slice(), 8, 16));
            Ok((id, seq))
        },
    }
}

fn encode(key: &[u8], id: u64, seq: u64) -> (r: String)
    ensures
        r@ == base64url(payload(id, seq) + hmac_sha256(key@, payload(id, seq))),
        parse_baton(key@, r@) == Ok::<(u64, u64), Refusal>((id, seq)),
{
    let none: Vec<u8> = Vec::new();
    let said = baton_bytes(id, seq, none.as_slice());
    assert(said@ =~= payload(id, seq));
    let mac = compute_mac(key, said.as_slice());
    let data = baton_bytes(id, seq, mac.as_slice());
    proof {
        be_reads_back(id);
        be_reads_back(seq);
        assert(data@.subrange(0, 16) =~= said@);
        assert(data@.subrange(16, 48) =~= mac@);
        assert(data@.subrange(0, 8) =~= to_be(id));
        assert(data@.subrange(8, 16) =~= to_be(seq));
    }
    encode_base64url(data.as_slice())
}

fn decode(key: &[u8], baton: &str) -> (r: Result<(u64, u64), AppError>)
    ensures
        match parse_baton(key@, baton@) {
            Ok(said) => r == Ok::<_, AppError>(said),
            Err(f) => r matches Err(e) && e@ == f,
        },
{
    let data = decode_base64url(baton);
    let genuine: bool = match &data {
        Some(d) => d.len() == 48 && verify_mac(
            key,
            vstd::slice::slice_subrange(d.as_slice(), 0, 16),
            vstd::slice::slice_subrange(d.as_slice(), 16, 48),
        ),
        None => false,
    };
    check_baton(&data, genuine)
}

// ---------------------------------------------------------------------------
// The registry
// ---------------------------------------------------------------------------

/// A stream at rest: its connection, the use that its baton is for, and when
/// it was last used (milliseconds of a clock that does not run backwards).
pub struct StreamEntry<H> {
    pub handle: H,
    pub baton_seq: u64,
    pub last_used: u64,
}

/// The streams that wait for their next request.
#[verifier::reject_recursive_types(H)]
pub struct StreamRegistry<H> {
    key: Vec<u8>,
    streams: HashMap<u64, StreamEntry<H>>,
}

/// A stream acquired by an in-flight pipeline request. One that is not
/// released is closed, with its connection.
pub struct StreamGuard<H> {
    id: u64,
    entry: StreamEntry<H>,
}

impl<H> StreamGuard<H> {
    pub closed spec fn id(self) -> u64 {
        self.id
    }

    pub closed spec fn entry(self) -> StreamEntry<H> {
        self.entry
    }

    pub fn handle(&self) -> (r: &H)
        ensures
            *r == self.entry().handle,
    {
        &self.entry.handle
    }

    /// Releases the stream back into the registry and returns the next baton,
    /// or closes it (returning `None`) when the client sent a `close` request.
    pub fn release(self, registry: &mut StreamRegistry<H>, closed: bool, now: u64) -> (r: Option<
        String,
    >)
        ensures
            final(registry).key() == old(registry).key(),
            closed ==> r is None && final(registry).streams() == old(registry).streams(),
            !closed ==> {
                let seq = next_use(self.entry().baton_seq);
                &&& final(registry).streams() == rested(
                    old(registry).streams(),
                    self.id(),
                    self.entry(),
                    now,
                )
                &&& r is Some
                &&& r->0@ == baton_text(old(registry).key(), self.id(), seq)
                &&& parse_baton(old(registry).key(), r->0@) == Ok::<(u64, u64), Refusal>(
                    (self.id(), seq),
                )
            },
    {
        if closed {
            return None;
        }
        let id: u64 = self.id;
        let seq: u64 = self.entry.baton_seq.wrapping_add(1);
        let entry = StreamEntry { handle: self.entry.handle, baton_seq: seq, last_used: now };
        registry.streams.insert(id, entry);
        Some(registry.encode_baton(id, seq))
    }
}

/// The streams without the one that a baton was given for: it is in use, or the
/// baton was the wrong one and it is gone.
pub open spec fn withdrawn<H>(streams: Map<u64, StreamEntry<H>>, id: u64) -> Map<
    u64,
    StreamEntry<H>,
> {
    streams.remove(id)
}

/// The streams once one that was in use waits for its next use.
pub open spec fn rested<H>(
    streams: Map<u64, StreamEntry<H>>,
    id: u64,
    entry: StreamEntry<H>,
    now: u64,
) -> Map<u64, StreamEntry<H>> {
    streams.insert(
        id,
        (StreamEntry {
            handle: entry.handle,
            baton_seq: next_use(entry.baton_seq),
            last_used: now,
        }),
    )
}

/// The streams without those that were idle for too long.
pub open spec fn swept<H>(streams: Map<u64, StreamEntry<H>>, now: u64) -> Map<
    u64,
    StreamEntry<H>,
> {
    streams.restrict(Set::new(|id: u64| !idle(streams[id], now)))
}

/// The use after that one; they start over behind the last.
pub open spec fn next_use(seq: u64) -> u64 {
    if seq == u64::MAX {
        0
    } else {
        (seq + 1) as u64
    }
}

/// The baton for that use of a stream, under a key.
pub open spec fn baton_text(key: Seq<u8>, id: u64, seq: u64) -> Seq<char> {
    base64url(payload(id, seq) + hmac_sha256(key, payload(id, seq)))
}

/// What comes of a baton that says `id` and `seq`: the stream, or why it is
/// refused. A stream that is found leaves the registry either way.
pub open spec fn claim<H>(streams: Map<u64, StreamEntry<H>>, id: u64, seq: u64) -> Result<
    StreamEntry<H>,
    Refusal,
> {
    if !streams.contains_key(id) {
        Err(baton_refusal("stream "@ + decimal(id as nat) + " not found"@))
    } else if streams[id].baton_seq != seq {
        Err(
            Refusal {
                status: 400,
                code: "BATON_REUSED"@,
                message: "expected baton seq "@ + decimal(streams[id].baton_seq as nat)
                    + ", received "@ + decimal(seq as nat),
            },
        )
    } else {
        Ok(streams[id])
    }
}

/// Whether a stream has been idle for longer than it is kept.
pub open spec fn idle<H>(entry: StreamEntry<H>, now: u64) -> bool {
    now - entry.last_used > STREAM_TTL_MS
}

/// The id `k` steps after the first one tried.
spec fn probe(candidate: u64, k: nat) -> u64 {
    ((candidate + k) % 0x1_0000_0000_0000_0000) as u64
}

impl<H> StreamRegistry<H> {
    /// The key that batons are made with.
    pub closed spec fn key(self) -> Seq<u8> {
        self.key@
    }

    /// The streams that wait, by their ids.
    pub closed spec fn streams(self) -> Map<u64, StreamEntry<H>> {
        self.streams@
    }

    /// A registry without streams, with a key of its own.
    pub fn new() -> (r: Self)
        ensures
            r.streams() == Map::<u64, StreamEntry<H>>::empty(),
            r.key().len() == 32,
    {
        let mut key: Vec<u8> = Vec::new();
        let mut i: usize = 0;
        while i < 4
            invariant
                i <= 4,
                key@.len() == 8 * i,
            decreases 4 - i,
        {
            let part: u64 = random_u64();
            proof {
                be_reads_back(part);
            }
            push_be(&mut key, part);
            i = i + 1;
        }
        StreamRegistry { key, streams: HashMap::new() }
    }

    /// Takes the stream that a genuine baton means.
    pub fn claim(&mut self, id: u64, seq: u64) -> (r: Result<StreamGuard<H>, AppError>)
        ensures
            final(self).key() == old(self).key(),
            final(self).streams() == withdrawn(old(self).streams(), id),
            match claim(old(self).streams(), id, seq) {
                Ok(entry) => r matches Ok(g) && g.id() == id && g.entry() == entry,
                Err(f) => r matches Err(e) && e@ == f,
            },
    {
        match self.streams.remove(&id) {
            None => {
                assert(self.streams@ =~= old(self).streams@.remove(id));
                let mut message = "stream ".to_owned();
                push_decimal(&mut message, id);
                message.append(" not found");
                Err(AppError::bad_request("BATON_INVALID", message.as_str()))
            },
            Some(entry) => {
                if entry.baton_seq != seq {
                    let mut message = "expected baton seq ".to_owned();
                    push_decimal(&mut message, entry.baton_seq);
                    message.append(", received ");
                    push_decimal(&mut message, seq);
                    return Err(AppError::bad_request("BATON_REUSED", message.as_str()));
                }
                Ok(StreamGuard { id, entry })
            },
        }
    }

    /// Opens a stream on a new connection, under an id that no stream has.
    /// `candidate` is taken as it is where it is free.
    pub fn open(&self, handle: H, candidate: u64, baton_seq: u64, now: u64) -> (r: StreamGuard<H>)
        ensures
            !self.streams().contains_key(r.id()),
            !self.streams().contains_key(candidate) ==> r.id() == candidate,
            r.entry() == (StreamEntry { handle, baton_seq, last_used: now }),
    {
        let id: u64 = self.free_id(candidate);
        StreamGuard { id, entry: StreamEntry { handle, baton_seq, last_used: now } }
    }

    fn free_id(&self, candidate: u64) -> (r: u64)
        ensures
            !self.streams().contains_key(r),
            !self.streams().contains_key(candidate) ==> r == candidate,
    {
        let mut id: u64 = candidate;
        let ghost dom = self.streams@.dom();
        let ghost mut seen: Set<u64> = Set::empty();
        let ghost mut steps: nat = 0;
        let total: usize = self.streams.len();
        while self.streams.contains_key(&id)
            invariant
                dom == self.streams@.dom(),
                dom.finite(),
                total == dom.len(),
                seen.subset_of(dom),
                seen.finite(),
                seen.len() == steps,
                steps <= total,
                id == probe(candidate, steps),
                steps > 0 ==> dom.contains(candidate),
                forall|x: u64|
                    seen.contains(x) ==> exists|k: nat|
                        k < steps && x == #[trigger] probe(candidate, k),
            decreases total - steps,
        {
            proof {
                if seen.contains(id) {
                    let k = choose|k: nat| k < steps && id == #[trigger] probe(candidate, k);
                    assert(false);
                }
                let before = seen;
                seen = seen.insert(id);
                assert forall|x: u64| seen.contains(x) implies exists|k: nat|
                    k < steps + 1 && x == #[trigger] probe(candidate, k) by {
                    if before.contains(x) {
                        let k = choose|k: nat| k < steps && x == #[trigger] probe(candidate, k);
                        assert(k < steps + 1 && x == probe(candidate, k));
                    } else {
                        assert(x == probe(candidate, steps));
                    }
                }
                vstd::set_lib::lemma_len_subset(seen, dom);
                steps = steps + 1;
            }
            id = id.wrapping_add(1);
        }
        id
    }

    /// Acquires the stream for `baton`, or creates a fresh one via `make` when
    /// there is no baton. With a baton `make` is not called, and may be one
    /// that cannot be.
    pub fn acquire<F: FnOnce() -> Result<H, String>>(
        &mut self,
        baton: Option<&str>,
        make: F,
        now: u64,
    ) -> (r: Result<StreamGuard<H>, AppError>)
        requires
            baton is None ==> make.requires(()),
        ensures
            final(self).key() == old(self).key(),
            match baton {
                Some(text) => match parse_baton(old(self).key(), text@) {
                    Err(f) => r is Err && r->Err_0@ == f && final(self).streams() == old(
                        self,
                    ).streams(),
                    Ok((id, seq)) => {
                        &&& final(self).streams() == withdrawn(old(self).streams(), id)
                        &&& match claim(old(self).streams(), id, seq) {
                            Ok(entry) => r is Ok && r->Ok_0.id() == id && r->Ok_0.entry() == entry,
                            Err(f) => r is Err && r->Err_0@ == f,
                        }
                    },
                },
                None => {
                    &&& final(self).streams() == old(self).streams()
                    &&& match r {
                        Ok(guard) => make.ensures((), Ok(guard.entry().handle)) && !old(
                            self,
                        ).streams().contains_key(guard.id()) && guard.entry().last_used == now,
                        Err(e) => exists|message: String| #[trigger]
                            make.ensures((), Err(message)) && e@ == (Refusal {
                                status: 500,
                                code: "INTERNAL_ERROR"@,
                                message: message@,
                            }),
                    }
                },
            },
    {
        match baton {
            Some(text) => match self.decode_baton(text) {
                Ok((id, seq)) => self.claim(id, seq),
                Err(e) => Err(e),
            },
            None => match make() {
                Ok(handle) => {
                    let candidate: u64 = random_u64();
                    let baton_seq: u64 = random_u64();
                    Ok(self.open(handle, candidate, baton_seq, now))
                },
                Err(message) => Err(AppError::internal(message.as_str())),
            },
        }
    }

    /// Removes expired streams; dropping them drops their connections.
    pub fn expire(&mut self, now: u64)
        ensures
            final(self).key() == old(self).key(),
            forall|id: u64|
                final(self).streams().contains_key(id) <==> old(self).streams().contains_key(id)
                    && !idle(old(self).streams()[id], now),
            forall|id: u64|
                final(self).streams().contains_key(id) ==> #[trigger] final(self).streams()[id]
                    == old(self).streams()[id],
            final(self).streams() == swept(old(self).streams(), now),
    {
        let mut ids: Vec<u64> = Vec::new();
        let ghost order = self.streams.keys().remaining().unref();
        for id in it: self.streams.keys()
            invariant
                it.seq().unref() == order,
                ids@ == order.take(it.index() as int),
        {
            ids.push(*id);
            assert(order.take(it.index() + 1) =~= order.take(it.index() as int).push(
                order[it.index() as int],
            ));
        }
        let ghost all = self.streams@;
        assert(order.take(order.len() as int) =~= order);
        assert(ids@.to_set() =~= all.dom());
        let mut i: usize = 0;
        while i < ids.len()
            invariant
                i <= ids@.len(),
                self.key == old(self).key,
                all == old(self).streams@,
                forall|id: u64|
                    #[trigger] self.streams@.contains_key(id) <==> all.contains_key(id) && !(idle(
                        all[id],
                        now,
                    ) && ids@.take(i as int).contains(id)),
                forall|id: u64|
                    self.streams@.contains_key(id) ==> #[trigger] self.streams@[id] == all[id],
            decreases ids@.len() - i,
        {
            let id: u64 = ids[i];
            let ghost before = self.streams@;
            let expired: bool = match self.streams.get(&id) {
                Some(entry) => now > entry.last_used && now - entry.last_used > STREAM_TTL_MS,
                None => false,
            };
            if expired {
                self.streams.remove(&id);
            }
            proof {
                let earlier = ids@.take(i as int);
                let later = ids@.take(i + 1);
                assert(later =~= earlier.push(id));
                assert forall|x: u64| later.contains(x) <==> (earlier.contains(x) || x == id) by {
                    if earlier.contains(x) {
                        let k = choose|k: int| 0 <= k < earlier.len() && earlier[k] == x;
                        assert(later[k] == x);
                    }
                    assert(later[i as int] == id);
                }
            }
            i = i + 1;
        }
        proof {
            assert(ids@.take(i as int) =~= ids@);
            assert forall|id: u64| all.contains_key(id) implies ids@.contains(id) by {
                assert(ids@.to_set().contains(id));
            }
            assert(self.streams@ =~= swept(all, now));
        }
    }

    /// The baton for that use of a stream. It says so under the registry's key.
    pub fn encode_baton(&self, stream_id: u64, baton_seq: u64) -> (r: String)
        ensures
            r@ == baton_text(self.key(), stream_id, baton_seq),
            parse_baton(self.key(), r@) == Ok::<(u64, u64), Refusal>((stream_id, baton_seq)),
    {
        encode(self.key.as_slice(), stream_id, baton_seq)
    }

    /// What a baton says under the registry's key; one that was not made with
    /// it is refused.
    pub fn decode_baton(&self, baton: &str) -> (r: Result<(u64, u64), AppError>)
        ensures
            match parse_baton(self.key(), baton@) {
                Ok(said) => r == Ok::<_, AppError>(said),
                Err(f) => r matches Err(e) && e@ == f,
            },
    {
        decode(self.key.as_slice(), baton)
    }
}

/// A baton opens its stream once: while the stream is in use the same baton
/// is refused, and once it is released the baton is that of an earlier use and
/// is refused too.
pub proof fn baton_is_good_once<H>(
    streams: Map<u64, StreamEntry<H>>,
    id: u64,
    seq: u64,
    handle: H,
    now: u64,
)
    requires
        claim(streams, id, seq) is Ok,
    ensures
        ({
            let in_use = withdrawn(streams, id);
            let released = in_use.insert(
                id,
                (StreamEntry { handle, baton_seq: next_use(seq), last_used: now }),
            );
            &&& claim(in_use, id, seq) is Err
            &&& claim(in_use, id, seq)->Err_0.code == "BATON_INVALID"@
            &&& claim(released, id, seq) is Err
            &&& claim(released, id, seq)->Err_0.code == "BATON_REUSED"@
            &&& claim(released, id, next_use(seq)) is Ok
        }),
{
}

/// A stream that was closed, or that expired, is gone: no baton opens it.
pub proof fn gone_stream_is_refused<H>(streams: Map<u64, StreamEntry<H>>, id: u64, seq: u64)
    requires
        !streams.contains_key(id),
    ensures
        claim(streams, id, seq) is Err,
        claim(streams, id, seq)->Err_0.code == "BATON_INVALID"@,
{
}

/// What is done with the streams of a registry. `guard` tells streams in use
/// apart.
pub enum Use<H> {
    /// A baton that says `id` and `seq` is given.
    Acquire { id: u64, seq: u64, guard: nat },
    /// A stream in use is released, and waits for its next baton.
    Release { guard: nat, handle: H, now: u64 },
    /// A stream in use is closed or dropped.
    Close { guard: nat },
    /// A stream is opened on a new connection.
    Open { id: u64, seq: u64, guard: nat },
    /// Streams that were idle for too long are removed.
    Expire { now: u64 },
}

/// The streams that wait in a registry, and the id and the use of those that
/// are in use.
#[verifier::ext_equal]
#[verifier::reject_recursive_types(H)]
pub struct Streams<H> {
    pub waiting: Map<u64, StreamEntry<H>>,
    pub in_use: Map<nat, (u64, u64)>,
}

/// What a use does, as `acquire`, `release`, `open` and `expire` say of it.
pub open spec fn used<H>(s: Streams<H>, u: Use<H>) -> Streams<H> {
    match u {
        Use::Acquire { id, seq, guard } => Streams {
            waiting: withdrawn(s.waiting, id),
            in_use: if claim(s.waiting, id, seq) is Ok {
                s.in_use.insert(guard, (id, seq))
            } else {
                s.in_use
            },
        },
        Use::Release { guard, handle, now } => if s.in_use.contains_key(guard) {
            let (id, seq) = s.in_use[guard];
            Streams {
                waiting: rested(
                    s.waiting,
                    id,
                    (StreamEntry { handle, baton_seq: seq, last_used: now }),
                    now,
                ),
                in_use: s.in_use.remove(guard),
            }
        } else {
            s
        },
        Use::Close { guard } => Streams { in_use: s.in_use.remove(guard), ..s },
        Use::Open { id, seq, guard } => Streams { in_use: s.in_use.insert(guard, (id, seq)), ..s },
        Use::Expire { now } => Streams {
            waiting: swept(s.waiting, now),
            ..s
        },
    }
}

/// What uses do, one after the other.
pub open spec fn used_all<H>(s: Streams<H>, uses: Seq<Use<H>>) -> Streams<H>
    decreases uses.len(),
{
    if uses.len() == 0 {
        s
    } else {
        used(used_all(s, uses.drop_last()), uses.last())
    }
}

/// How many uses after `from` comes `to`.
pub open spec fn ahead(from: u64, to: u64) -> int {
    if from <= to {
        to - from
    } else {
        to + 0x1_0000_0000_0000_0000 - from
    }
}

/// Whether a stream in use at `from` comes to `to` again in `1..=n` uses.
pub open spec fn nears(from: u64, to: u64, n: int) -> bool {
    1 <= ahead(from, to) <= n
}

/// Whether a use opens a stream under that id so that its number comes to `seq`
/// in `1..=n` uses.
pub open spec fn draws<H>(u: Use<H>, id: u64, seq: u64, n: int) -> bool {
    u matches Use::Open { id: other, seq: from, .. } && other == id && nears(from, seq, n)
}

/// Within `n` uses no stream of that id waits for the use `seq`.
spec fn past<H>(s: Streams<H>, id: u64, seq: u64, n: int) -> bool {
    &&& s.waiting.contains_key(id) ==> ahead(s.waiting[id].baton_seq, seq) > n
    &&& forall|g: nat| #[trigger]
        s.in_use.contains_key(g) && s.in_use[g].0 == id ==> !nears(s.in_use[g].1, seq, n)
}

proof fn stays_past<H>(s: Streams<H>, uses: Seq<Use<H>>, id: u64, seq: u64, n: int)
    requires
        past(s, id, seq, n),
        uses.len() <= n <= u64::MAX,
        forall|i: int|
            0 <= i < uses.len() ==> !draws(#[trigger] uses[i], id, seq, n - i - 1),
    ensures
        past(used_all(s, uses), id, seq, n - uses.len()),
    decreases uses.len(),
{
    if uses.len() > 0 {
        let before = uses.drop_last();
        assert forall|i: int| 0 <= i < before.len() implies !draws(
            #[trigger] before[i],
            id,
            seq,
            n - i - 1,
        ) by {
            assert(before[i] == uses[i]);
        }
        stays_past(s, before, id, seq, n);
        let mid = used_all(s, before);
        let last = uses.last();
        assert(!draws(uses[uses.len() - 1], id, seq, n - uses.len()));
        let after = used(mid, last);
        assert(past(mid, id, seq, n - uses.len() + 1));
        assert forall|g: nat| #[trigger]
            after.in_use.contains_key(g) && after.in_use[g].0 == id implies !nears(
            after.in_use[g].1,
            seq,
            n - uses.len(),
        ) by {
            if mid.in_use.contains_key(g) {
                assert(mid.in_use[g].0 == id ==> !nears(mid.in_use[g].1, seq, n - uses.len() + 1));
            }
        }
    }
}

/// A baton works at most once, however often streams are used later, this one
/// or others, until every sequence number has been given out: each later
/// attempt is answered with status 400. Only chance can undo that: a stream
/// that is opened under the same id, at a number from which its uses come to
/// the baton's within the history.
pub proof fn used_baton_is_refused<H>(
    s: Streams<H>,
    id: u64,
    seq: u64,
    guard: nat,
    uses: Seq<Use<H>>,
)
    requires
        claim(s.waiting, id, seq) is Ok,
        uses.len() <= u64::MAX,
        forall|g: nat| #[trigger]
            s.in_use.contains_key(g) && s.in_use[g].0 == id ==> !nears(
                s.in_use[g].1,
                seq,
                uses.len() as int,
            ),
        forall|i: int|
            0 <= i < uses.len() ==> !draws(#[trigger] uses[i], id, seq, uses.len() - i - 1),
    ensures
        ({
            let later = used_all(used(s, Use::Acquire { id, seq, guard }), uses);
            &&& claim(later.waiting, id, seq) is Err
            &&& claim(later.waiting, id, seq)->Err_0.status == 400
            &&& claim(later.waiting, id, seq)->Err_0.code == "BATON_INVALID"@ || claim(
                later.waiting,
                id,
                seq,
            )->Err_0.code == "BATON_REUSED"@
        }),
{
    let first = used(s, Use::Acquire { id, seq, guard });
    assert forall|g: nat| #[trigger]
        first.in_use.contains_key(g) && first.in_use[g].0 == id implies !nears(
        first.in_use[g].1,
        seq,
        uses.len() as int,
    ) by {
        if g != guard {
            assert(s.in_use.contains_key(g));
        }
    }
    stays_past(first, uses, id, seq, uses.len() as int);
}

} // verus!
