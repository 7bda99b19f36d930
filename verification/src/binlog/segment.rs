//! Segment files: names, records one after the other, and what is read back
//! of them.

use crate::binlog::codec::{parse_tx, tx_bytes, tx_round_trip};
use crate::binlog::{Transaction, Tx};
use crate::text::{chars_of, padded, padded_reads_back, parse_u64, push_padded, text_of, unsigned_value};
use crate::wire::{
    parse_varint, parse_varint_bounds, put_varint, scan_varint, varint, varint_range_u64,
    varint_round_trip,
};
use vstd::prelude::*;

verus! {

// ---------------------------------------------------------------------------
// Names
// ---------------------------------------------------------------------------

/// The name of the segment whose first record has LSN `lsn`.
pub open spec fn segment_name(lsn: u64) -> Seq<char> {
    padded(lsn as nat, 10) + ".seg"@
}

/// The LSN that a file's name says, where it is a segment's name.
pub open spec fn named_lsn(name: Seq<char>) -> Option<nat> {
    if name.len() >= 4 && name.skip(name.len() - 4) == ".seg"@ {
        unsigned_value(name.take(name.len() - 4))
    } else {
        None
    }
}

pub fn lsn_to_name(lsn: u64) -> (r: String)
    ensures
        r@ == segment_name(lsn),
{
    let mut r = String::new();
    push_padded(&mut r, lsn, 10);
    r.append(".seg");
    assert(r@ =~= segment_name(lsn));
    r
}

pub fn name_to_lsn(name: &str) -> (r: Option<u64>)
    ensures
        match named_lsn(name@) {
            Some(lsn) => r == Some(lsn as u64),
            None => r is None,
        },
{
    let chars = chars_of(name);
    let n: usize = chars.len();
    proof {
        reveal_strlit(".seg");
        if n >= 4 {
            let tail = name@.skip(n - 4);
            assert(tail[0] == chars@[n - 4] && tail[1] == chars@[n - 3]);
            assert(tail[2] == chars@[n - 2] && tail[3] == chars@[n - 1]);
        }
    }
    if n < 4 || chars[n - 4] != '.' || chars[n - 3] != 's' || chars[n - 2] != 'e' || chars[n - 1]
        != 'g' {
        return None;
    }
    assert(name@.skip(n - 4) =~= ".seg"@);
    let stem = text_of(vstd::slice::slice_subrange(chars.as_slice(), 0, n - 4));
    assert(stem@ =~= name@.take(n - 4));
    parse_u64(stem.as_str())
}

/// A segment's name says the LSN it was made from.
pub proof fn segment_name_reads_back(lsn: u64)
    ensures
        named_lsn(segment_name(lsn)) == Some(lsn as nat),
{
    reveal_strlit(".seg");
    let name = segment_name(lsn);
    padded_reads_back(lsn as nat, 10);
    assert(name.skip(name.len() - 4) =~= ".seg"@);
    assert(name.take(name.len() - 4) =~= padded(lsn as nat, 10));
}

// ---------------------------------------------------------------------------
// Varints that frame records
// ---------------------------------------------------------------------------

/// The number of bytes in the varint of `v`.
pub fn varint_len(v: u64) -> (n: usize)
    ensures
        n == varint(v as nat).len(),
        1 <= n <= 10,
{
    let mut rest: u64 = v;
    let mut n: usize = 1;
    proof {
        varint_range_u64();
        varint_round_trip(v as nat, seq![], 10);
        assert(varint(v as nat) + seq![] =~= varint(v as nat));
    }
    while rest >= 0x80
        invariant
            1 <= n,
            n - 1 + varint(rest as nat).len() == varint(v as nat).len(),
            varint(v as nat).len() <= 10,
        decreases rest,
    {
        assert(varint((rest / 128) as nat).len() >= 1);
        rest = rest / 128;
        n = n + 1;
    }
    n
}

/// Appends the varint of `v`.
pub fn write_varint(w: &mut Vec<u8>, v: u64)
    ensures
        final(w)@ == old(w)@ + varint(v as nat),
{
    put_varint(w, v);
}

/// Why a stretch of a segment holds no record.
#[derive(Clone, Copy, Debug, PartialEq, Eq, Structural)]
pub enum BinlogError {
    /// The bytes end within a record.
    UnexpectedEnd,
    /// No byte among ten ends the length.
    VarintTooLong,
    /// The record is not a transaction's stored form.
    Corrupt,
}

impl BinlogError {
    /// What the error says. What is wrong with a corrupt record, its decoder
    /// tells: that is `cause`.
    pub open spec fn text(self, cause: Seq<char>) -> Seq<char> {
        match self {
            BinlogError::UnexpectedEnd => "failed to fill whole buffer"@,
            BinlogError::VarintTooLong => "binlog: varint too long"@,
            BinlogError::Corrupt => cause,
        }
    }

    /// What the error says, where the decoder of records says `cause` of a
    /// corrupt one.
    pub fn message(&self, cause: &str) -> (r: String)
        ensures
            r@ == self.text(cause@),
    {
        match self {
            BinlogError::UnexpectedEnd => "failed to fill whole buffer".to_owned(),
            BinlogError::VarintTooLong => "binlog: varint too long".to_owned(),
            BinlogError::Corrupt => cause.to_owned(),
        }
    }
}

/// The length that stands at the start of `bytes`, and its own length in
/// bytes: none where `bytes` are at their end. Bits past the 64th are dropped.
pub open spec fn parse_length(bytes: Seq<u8>) -> Result<Option<(u64, nat)>, BinlogError> {
    if bytes.len() == 0 {
        Ok(None)
    } else {
        match parse_varint(bytes, 10) {
            Some((v, n)) => Ok(Some(((v % 0x1_0000_0000_0000_0000) as u64, n))),
            None => if bytes.len() < 10 {
                Err(BinlogError::UnexpectedEnd)
            } else {
                Err(BinlogError::VarintTooLong)
            },
        }
    }
}

/// Reads the length at `pos`: the number and where it ends.
pub fn read_varint(buf: &[u8], pos: usize) -> (r: Result<Option<(u64, usize)>, BinlogError>)
    requires
        pos <= buf@.len(),
    ensures
        match parse_length(buf@.skip(pos as int)) {
            Ok(Some((v, n))) => r == Ok::<_, BinlogError>(Some((v, (pos + n) as usize))) && pos < pos + n
                <= buf@.len() <= usize::MAX,
            Ok(None) => r == Ok::<Option<(u64, usize)>, BinlogError>(None),
            Err(e) => r == Err::<Option<(u64, usize)>, _>(e),
        },
{
    if pos == buf.len() {
        return Ok(None);
    }
    match scan_varint(buf, pos) {
        Some(x) => Ok(Some((x.value, pos + x.len))),
        None => if buf.len() - pos < 10 {
            Err(BinlogError::UnexpectedEnd)
        } else {
            Err(BinlogError::VarintTooLong)
        },
    }
}

// ---------------------------------------------------------------------------
// Records
// ---------------------------------------------------------------------------

/// A transaction as a record: its length, then its stored form.
pub open spec fn record(tx: Tx) -> Seq<u8> {
    varint(tx_bytes(tx).len()) + tx_bytes(tx)
}

/// The records of `txs`, in order.
pub open spec fn records(txs: Seq<Tx>) -> Seq<u8>
    decreases txs.len(),
{
    if txs.len() == 0 {
        seq![]
    } else {
        records(txs.drop_last()) + record(txs.last())
    }
}

/// What stands at the start of a stretch of a segment.
#[verifier::ext_equal]
pub enum Frame {
    /// Nothing: the segment ends here.
    End,
    /// A record of that content and, with its length before it, that size.
    Record(Seq<u8>, nat),
    /// No length that can be read.
    NoLength(BinlogError),
    /// A length, and fewer bytes after it.
    Short(u64),
}

pub open spec fn parse_frame(bytes: Seq<u8>) -> Frame {
    match parse_length(bytes) {
        Ok(None) => Frame::End,
        Err(e) => Frame::NoLength(e),
        Ok(Some((len, n))) => if len <= bytes.len() - n {
            Frame::Record(bytes.subrange(n as int, n + len), n + len as nat)
        } else {
            Frame::Short(len)
        },
    }
}

/// One record's place, or why there is none.
pub(crate) enum Framed {
    End,
    /// The content's bounds.
    Record(usize, usize),
    NoLength(BinlogError),
    Short(u64),
}

impl Framed {
    pub(crate) open spec fn within(self, buf: Seq<u8>, pos: int) -> Frame {
        match self {
            Framed::End => Frame::End,
            Framed::Record(from, to) => Frame::Record(
                buf.subrange(from as int, to as int),
                (to - pos) as nat,
            ),
            Framed::NoLength(e) => Frame::NoLength(e),
            Framed::Short(len) => Frame::Short(len),
        }
    }
}

pub(crate) fn read_frame(buf: &[u8], pos: usize) -> (r: Framed)
    requires
        pos <= buf@.len(),
    ensures
        r.within(buf@, pos as int) == parse_frame(buf@.skip(pos as int)),
        r matches Framed::Record(from, to) ==> pos < from <= to <= buf@.len(),
{
    match read_varint(buf, pos) {
        Ok(None) => Framed::End,
        Err(e) => Framed::NoLength(e),
        Ok(Some((len, from))) => {
            if len > (buf.len() - from) as u64 {
                return Framed::Short(len);
            }
            let to: usize = from + len as usize;
            assert(buf@.skip(pos as int).subrange(from - pos, to - pos) =~= buf@.subrange(
                from as int,
                to as int,
            ));
            Framed::Record(from, to)
        },
    }
}

proof fn parse_frame_progress(bytes: Seq<u8>)
    ensures
        parse_frame(bytes) matches Frame::Record(body, n) ==> 0 < n <= bytes.len() && body.len()
            < n,
{
    parse_varint_bounds(bytes, 10);
}

proof fn frame_stands(body: Seq<u8>, rest: Seq<u8>)
    requires
        body.len() <= u64::MAX,
    ensures
        parse_frame(varint(body.len()) + body + rest) == Frame::Record(
            body,
            varint(body.len()).len() + body.len(),
        ),
        (varint(body.len()) + body + rest).skip((varint(body.len()).len() + body.len()) as int)
            == rest,
{
    let head = varint(body.len());
    let all = head + body + rest;
    assert(all =~= head + (body + rest));
    varint_range_u64();
    varint_round_trip(body.len(), body + rest, 10);
    assert(all.subrange(head.len() as int, (head.len() + body.len()) as int) =~= body);
    assert(all.skip((head.len() + body.len()) as int) =~= rest);
}

/// A record stands where it was written, whatever follows.
pub(crate) proof fn record_stands(tx: Tx, rest: Seq<u8>)
    requires
        tx_bytes(tx).len() <= u64::MAX,
    ensures
        parse_frame(record(tx) + rest) == Frame::Record(tx_bytes(tx), record(tx).len()),
        (record(tx) + rest).skip(record(tx).len() as int) == rest,
        parse_tx(tx_bytes(tx)) == Some(tx),
{
    frame_stands(tx_bytes(tx), rest);
    tx_round_trip(tx);
}

// ---------------------------------------------------------------------------
// Recovery
// ---------------------------------------------------------------------------

/// What a scan of a segment finds.
#[derive(Clone, Copy, Debug, PartialEq, Eq, Structural)]
pub struct SegmentScan {
    /// The highest LSN, of the segment and of what came before it.
    pub lsn: u64,
    /// The bytes of the records that were read.
    pub consumed: usize,
    /// Whether a partly written record follows them.
    pub torn: bool,
}

/// What a scan of a segment finds, mathematically.
pub enum Scan {
    Read(u64, nat, bool),
    Refused(BinlogError),
}

pub open spec fn higher(a: u64, b: u64) -> u64 {
    if b > a {
        b
    } else {
        a
    }
}

/// Reads record after record: up to the segment's end, or to a record that
/// was not written whole. `lsn` is the highest LSN and `consumed` the number
/// of bytes so far.
pub open spec fn scan(bytes: Seq<u8>, lsn: u64, consumed: nat) -> Scan
    decreases bytes.len(),
{
    match parse_frame(bytes) {
        Frame::End => Scan::Read(lsn, consumed, false),
        Frame::NoLength(_) => Scan::Read(lsn, consumed, true),
        Frame::Short(_) => Scan::Read(lsn, consumed, true),
        Frame::Record(body, n) => match parse_tx(body) {
            None => Scan::Refused(BinlogError::Corrupt),
            Some(tx) => if 0 < n <= bytes.len() {
                scan(
                    bytes.skip(n as int),
                    higher(lsn, tx.lsn),
                    consumed + varint(body.len()).len() + body.len(),
                )
            } else {
                Scan::Refused(BinlogError::Corrupt)
            },
        },
    }
}

proof fn varint_shortest(bytes: Seq<u8>, limit: nat)
    ensures
        parse_varint(bytes, limit) matches Some((v, n)) ==> varint(v).len() <= n,
    decreases limit,
{
    if limit > 0 && bytes.len() > 0 && bytes[0] >= 128 {
        varint_shortest(bytes.skip(1), (limit - 1) as nat);
        if let Some((v, n)) = parse_varint(bytes.skip(1), (limit - 1) as nat) {
            let w = (bytes[0] - 128 + 128 * v) as nat;
            assert(w >= 128 ==> w / 128 == v);
            assert(varint(v).len() >= 1);
        }
    }
}

proof fn varint_shorter(v: nat, w: nat)
    requires
        v <= w,
    ensures
        varint(v).len() <= varint(w).len(),
    decreases w,
{
    if v >= 128 {
        varint_shorter(v / 128, w / 128);
    }
}

/// Scans the records of one segment; `lsn` is the highest LSN before it.
pub fn scan_segment(buf: &[u8], lsn: u64) -> (r: Result<SegmentScan, BinlogError>)
    ensures
        match scan(buf@, lsn, 0) {
            Scan::Read(l, n, torn) => r matches Ok(s) && s.lsn == l && s.consumed == n && s.torn == torn
                && n <= buf@.len(),
            Scan::Refused(e) => r == Err::<SegmentScan, _>(e),
        },
{
    let end: usize = buf.len();
    let mut highest: u64 = lsn;
    let mut pos: usize = 0;
    let mut consumed: usize = 0;
    assert(buf@.skip(0) =~= buf@);
    loop
        invariant
            consumed <= pos <= end == buf@.len(),
            scan(buf@.skip(pos as int), highest, consumed as nat) == scan(buf@, lsn, 0),
        decreases buf@.len() - pos,
    {
        let ghost rest = buf@.skip(pos as int);
        match read_frame(buf, pos) {
            Framed::End => {
                return Ok(SegmentScan { lsn: highest, consumed, torn: false });
            },
            Framed::NoLength(_) => {
                return Ok(SegmentScan { lsn: highest, consumed, torn: true });
            },
            Framed::Short(_) => {
                return Ok(SegmentScan { lsn: highest, consumed, torn: true });
            },
            Framed::Record(from, to) => {
                let len: u64 = (to - from) as u64;
                match Transaction::decode(vstd::slice::slice_subrange(buf, from, to)) {
                    Err(_) => {
                        return Err(BinlogError::Corrupt);
                    },
                    Ok(tx) => {
                        if tx.lsn > highest {
                            highest = tx.lsn;
                        }
                    },
                }
                proof {
                    assert(rest.skip(to - pos) =~= buf@.skip(to as int));
                    varint_shortest(rest, 10);
                    if let Some((v, _)) = parse_varint(rest, 10) {
                        assert(v % 0x1_0000_0000_0000_0000 <= v);
                        varint_shorter(len as nat, v);
                    }
                }
                consumed = consumed + varint_len(len) + len as usize;
                pos = to;
            },
        }
    }
}

/// The highest of `lsn` and the LSNs of `txs`.
pub open spec fn highest_lsn(lsn: u64, txs: Seq<Tx>) -> u64
    decreases txs.len(),
{
    if txs.len() == 0 {
        lsn
    } else {
        higher(highest_lsn(lsn, txs.drop_last()), txs.last().lsn)
    }
}

/// Every one of `txs` has a length that a record can be stored with.
pub open spec fn storable(txs: Seq<Tx>) -> bool {
    forall|i: int| 0 <= i < txs.len() ==> tx_bytes(#[trigger] txs[i]).len() <= u64::MAX
}

proof fn scan_past(txs: Seq<Tx>, rest: Seq<u8>, lsn: u64, consumed: nat)
    requires
        storable(txs),
    ensures
        scan(records(txs) + rest, lsn, consumed) == scan(
            rest,
            highest_lsn(lsn, txs),
            consumed + records(txs).len(),
        ),
    decreases txs.len(),
{
    if txs.len() == 0 {
        assert(records(txs) + rest =~= rest);
    } else {
        let tx = txs.last();
        let before = txs.drop_last();
        assert forall|i: int| 0 <= i < before.len() implies tx_bytes(#[trigger] before[i]).len()
            <= u64::MAX by {
            assert(before[i] == txs[i]);
        }
        scan_past(before, record(tx) + rest, lsn, consumed);
        assert(records(txs) + rest =~= records(before) + (record(tx) + rest));
        assert(txs[txs.len() - 1] == tx);
        record_stands(tx, rest);
    }
}

/// A segment that was written whole is read to its end.
pub proof fn whole_segment_is_read(txs: Seq<Tx>, lsn: u64)
    requires
        storable(txs),
    ensures
        scan(records(txs), lsn, 0) == Scan::Read(
            highest_lsn(lsn, txs),
            records(txs).len(),
            false,
        ),
{
    scan_past(txs, seq![], lsn, 0);
    assert(records(txs) + seq![] =~= records(txs));
}

proof fn cut_varint(v: nat, k: nat, limit: nat)
    requires
        k < varint(v).len(),
    ensures
        parse_varint(varint(v).take(k as int), limit) is None,
    decreases v,
{
    if v >= 128 && k > 0 && limit > 0 {
        cut_varint(v / 128, (k - 1) as nat, (limit - 1) as nat);
        assert(varint(v).take(k as int).skip(1) =~= varint(v / 128).take(k - 1));
    }
}

proof fn cut_frame(body: Seq<u8>, k: nat)
    requires
        body.len() <= u64::MAX,
        0 < k < varint(body.len()).len() + body.len(),
    ensures
        parse_frame((varint(body.len()) + body).take(k as int)) is NoLength || parse_frame(
            (varint(body.len()) + body).take(k as int),
        ) == Frame::Short(body.len() as u64),
{
    let head = varint(body.len());
    let cut = (head + body).take(k as int);
    varint_range_u64();
    if k < head.len() {
        cut_varint(body.len(), k, 10);
        assert(cut =~= head.take(k as int));
    } else {
        let rest = body.take(k - head.len());
        assert(cut =~= head + rest);
        varint_round_trip(body.len(), rest, 10);
    }
}

/// A record that was cut short, anywhere, behind records that were written
/// whole: the scan keeps those, and tells that the rest is to be cut off.
pub proof fn torn_record_is_cut(txs: Seq<Tx>, tx: Tx, k: nat, lsn: u64)
    requires
        storable(txs),
        tx_bytes(tx).len() <= u64::MAX,
        0 < k < record(tx).len(),
    ensures
        scan(records(txs) + record(tx).take(k as int), lsn, 0) == Scan::Read(
            highest_lsn(lsn, txs),
            records(txs).len(),
            true,
        ),
{
    scan_past(txs, record(tx).take(k as int), lsn, 0);
    cut_frame(tx_bytes(tx), k);
}

// ---------------------------------------------------------------------------
// Reading
// ---------------------------------------------------------------------------

/// What the next transaction above an LSN is, in what is left of a segment.
#[verifier::ext_equal]
pub enum Next {
    /// There is none in this segment.
    End,
    /// That one, with so many bytes of the segment left behind it.
    Tx(Tx, nat),
    Failed(BinlogError),
    /// The record with this body is not a transaction's stored form.
    Corrupt(Seq<u8>),
}

/// The first transaction above `since` in `bytes`.
pub open spec fn next_tx(bytes: Seq<u8>, since: u64) -> Next
    decreases bytes.len(),
{
    match parse_frame(bytes) {
        Frame::End => Next::End,
        Frame::NoLength(e) => Next::Failed(e),
        Frame::Short(_) => Next::Failed(BinlogError::UnexpectedEnd),
        Frame::Record(body, n) => match parse_tx(body) {
            None => Next::Corrupt(body),
            Some(tx) => if tx.lsn > since {
                Next::Tx(tx, (bytes.len() - n) as nat)
            } else if 0 < n <= bytes.len() {
                next_tx(bytes.skip(n as int), since)
            } else {
                Next::End
            },
        },
    }
}

/// One step of a reader.
pub enum Step {
    /// The segment at hand is read; the reader wants the next one.
    Segment,
    Record(Transaction),
    /// The read failed, and is over.
    Failed(BinlogError),
    /// The read failed on a corrupt record, and is over. The record's body is
    /// handed out, so that its decoder can tell what is wrong with it.
    Corrupt(Vec<u8>),
    /// Everything is read.
    End,
}

/// Lazy reader over segments: yields one transaction per record, in order,
/// without those up to `since`. A segment's bytes are handed in when it asks.
pub struct BinlogIter {
    /// Segments not handed in yet.
    left: usize,
    bytes: Vec<u8>,
    pos: usize,
    since: u64,
    failed: bool,
}

/// A reader's state.
#[verifier::ext_equal]
pub struct Reader {
    pub left: nat,
    /// What is left of the segment at hand.
    pub rest: Seq<u8>,
    pub since: u64,
    pub failed: bool,
}

/// One step of a reader, mathematically.
#[verifier::ext_equal]
pub enum Stepped {
    Segment,
    Record(Tx),
    Failed(BinlogError),
    Corrupt(Seq<u8>),
    End,
}

impl Reader {
    /// The reader once the next segment's bytes are handed in.
    pub open spec fn fed(self, bytes: Seq<u8>) -> Reader {
        Reader { left: (self.left - 1) as nat, rest: bytes, ..self }
    }

    /// The next step, and the reader behind it.
    pub open spec fn stepping(self) -> (Reader, Stepped) {
        if self.failed {
            (self, Stepped::End)
        } else {
            match next_tx(self.rest, self.since) {
                Next::Tx(tx, left) => (
                    Reader { rest: self.rest.skip(self.rest.len() - left), ..self },
                    Stepped::Record(tx),
                ),
                Next::Failed(e) => (Reader { failed: true, ..self }, Stepped::Failed(e)),
                Next::Corrupt(body) => (Reader { failed: true, ..self }, Stepped::Corrupt(body)),
                Next::End => (
                    Reader { rest: seq![], ..self },
                    if self.left == 0 {
                        Stepped::End
                    } else {
                        Stepped::Segment
                    },
                ),
            }
        }
    }
}

impl View for BinlogIter {
    type V = Reader;

    closed spec fn view(&self) -> Reader {
        Reader {
            left: self.left as nat,
            rest: self.bytes@.skip(self.pos as int),
            since: self.since,
            failed: self.failed,
        }
    }
}

impl BinlogIter {
    pub closed spec fn wf(&self) -> bool {
        self.pos <= self.bytes@.len()
    }

    /// A reader of `segments` segments, for transactions above `since`.
    pub fn new(segments: usize, since: u64) -> (r: Self)
        ensures
            r.wf(),
            r@ == (Reader { left: segments as nat, rest: seq![], since, failed: false }),
    {
        let r = BinlogIter { left: segments, bytes: Vec::new(), pos: 0, since, failed: false };
        assert(r@.rest =~= seq![]);
        r
    }

    /// Hands in the next segment's bytes.
    pub fn feed(&mut self, bytes: Vec<u8>)
        requires
            old(self).wf(),
            old(self)@.left > 0,
            old(self)@.rest.len() == 0,
        ensures
            final(self).wf(),
            final(self)@ == old(self)@.fed(bytes@),
    {
        self.left = self.left - 1;
        self.bytes = bytes;
        self.pos = 0;
        assert(self@.rest =~= bytes@);
    }

    /// The next step: a transaction above `since`, a wish for the next segment,
    /// or the end. After a failure there is nothing more.
    pub fn next(&mut self) -> (r: Step)
        requires
            old(self).wf(),
        ensures
            final(self).wf(),
            final(self)@.left == old(self)@.left,
            final(self)@.since == old(self)@.since,
            old(self)@.failed ==> r is End && final(self)@ == old(self)@,
            !old(self)@.failed ==> match next_tx(old(self)@.rest, old(self)@.since) {
                Next::Tx(tx, left) => r matches Step::Record(t) && t@ == tx && final(self)@.rest
                    == old(self)@.rest.skip(old(self)@.rest.len() - left)
                    && !final(self)@.failed,
                Next::Failed(e) => r == Step::Failed(e) && final(self)@.failed,
                Next::Corrupt(body) => r matches Step::Corrupt(b) && b@ == body
                    && final(self)@.failed,
                Next::End => final(self)@.rest.len() == 0 && !final(self)@.failed && r == (if old(
                    self,
                )@.left == 0 {
                    Step::End
                } else {
                    Step::Segment
                }),
            },
            old(self)@.stepping() matches (after, Stepped::Record(_)) ==> final(self)@ == after,
            match old(self)@.stepping().1 {
                Stepped::Segment => r is Segment,
                Stepped::Record(tx) => r matches Step::Record(t) && t@ == tx,
                Stepped::Failed(e) => r == Step::Failed(e),
                Stepped::Corrupt(body) => r matches Step::Corrupt(b) && b@ == body,
                Stepped::End => r is End,
            },
    {
        if self.failed {
            return Step::End;
        }
        let ghost start = self@;
        loop
            invariant
                self.wf(),
                !self.failed,
                !start.failed,
                start == old(self)@,
                self.left == start.left,
                self.since == start.since,
                self.bytes == old(self).bytes,
                old(self).pos <= self.pos,
                start.rest == old(self).bytes@.skip(old(self).pos as int),
                next_tx(self.bytes@.skip(self.pos as int), self.since) == next_tx(
                    start.rest,
                    start.since,
                ),
            decreases self.bytes@.len() - self.pos,
        {
            let ghost rest = self.bytes@.skip(self.pos as int);
            match read_frame(self.bytes.as_slice(), self.pos) {
                Framed::End => {
                    return if self.left == 0 {
                        Step::End
                    } else {
                        Step::Segment
                    };
                },
                Framed::NoLength(e) => {
                    self.failed = true;
                    return Step::Failed(e);
                },
                Framed::Short(_) => {
                    self.failed = true;
                    return Step::Failed(BinlogError::UnexpectedEnd);
                },
                Framed::Record(from, to) => {
                    let ghost pos = self.pos as int;
                    let body = vstd::slice::slice_subrange(self.bytes.as_slice(), from, to);
                    match Transaction::decode(body) {
                        Err(_) => {
                            let body: Vec<u8> = vstd::slice::slice_to_vec(body);
                            self.failed = true;
                            return Step::Corrupt(body);
                        },
                        Ok(tx) => {
                            self.pos = to;
                            assert(rest.skip(to - pos) =~= self.bytes@.skip(to as int));
                            if tx.lsn > self.since {
                                assert(self.bytes@.skip(to as int) =~= start.rest.skip(
                                    start.rest.len() - (rest.len() - (to - pos)),
                                ));
                                return Step::Record(tx);
                            }
                        },
                    }
                },
            }
        }
    }
}

/// The transactions above `since` in a segment, in order.
pub open spec fn segment_txs(bytes: Seq<u8>, since: u64) -> Result<Seq<Tx>, BinlogError>
    decreases bytes.len(),
{
    match parse_frame(bytes) {
        Frame::End => Ok(seq![]),
        Frame::NoLength(e) => Err(e),
        Frame::Short(_) => Err(BinlogError::UnexpectedEnd),
        Frame::Record(body, n) => match parse_tx(body) {
            None => Err(BinlogError::Corrupt),
            Some(tx) => if 0 < n <= bytes.len() {
                match segment_txs(bytes.skip(n as int), since) {
                    Ok(txs) => Ok(
                        if tx.lsn > since {
                            seq![tx] + txs
                        } else {
                            txs
                        },
                    ),
                    Err(e) => Err(e),
                }
            } else {
                Err(BinlogError::Corrupt)
            },
        },
    }
}

/// The transactions above `since` in segments, in order.
pub open spec fn log_txs(files: Seq<Seq<u8>>, since: u64) -> Result<Seq<Tx>, BinlogError>
    decreases files.len(),
{
    if files.len() == 0 {
        Ok(seq![])
    } else {
        match log_txs(files.drop_last(), since) {
            Ok(before) => match segment_txs(files.last(), since) {
                Ok(txs) => Ok(before + txs),
                Err(e) => Err(e),
            },
            Err(e) => Err(e),
        }
    }
}

/// What a reader yields is what the segment holds, one after the other.
pub proof fn next_is_first(bytes: Seq<u8>, since: u64)
    ensures
        match next_tx(bytes, since) {
            Next::End => segment_txs(bytes, since) == Ok::<Seq<Tx>, BinlogError>(seq![]),
            Next::Failed(e) => segment_txs(bytes, since) == Err::<Seq<Tx>, _>(e),
            Next::Corrupt(_) => segment_txs(bytes, since) == Err::<Seq<Tx>, _>(
                BinlogError::Corrupt,
            ),
            Next::Tx(tx, left) => left < bytes.len() && segment_txs(bytes, since) == (
            match segment_txs(bytes.skip(bytes.len() - left), since) {
                Ok(txs) => Ok(seq![tx] + txs),
                Err(e) => Err(e),
            }),
        },
    decreases bytes.len(),
{
    parse_frame_progress(bytes);
    if let Frame::Record(body, n) = parse_frame(bytes) {
        if let Some(tx) = parse_tx(body) {
            let rest = bytes.skip(n as int);
            if tx.lsn > since {
                assert(bytes.skip(bytes.len() - (bytes.len() - n)) =~= rest);
            } else {
                next_is_first(rest, since);
                if let Next::Tx(_, left) = next_tx(rest, since) {
                    assert(bytes.skip(bytes.len() - left) =~= rest.skip(rest.len() - left));
                }
            }
        }
    }
}

/// Those of `txs` that are above `since`.
pub open spec fn above(txs: Seq<Tx>, since: u64) -> Seq<Tx>
    decreases txs.len(),
{
    if txs.len() == 0 {
        seq![]
    } else if txs.last().lsn > since {
        above(txs.drop_last(), since).push(txs.last())
    } else {
        above(txs.drop_last(), since)
    }
}

proof fn segment_txs_past(txs: Seq<Tx>, rest: Seq<u8>, since: u64)
    requires
        forall|i: int| 0 <= i < txs.len() ==> tx_bytes(#[trigger] txs[i]).len() <= u64::MAX,
    ensures
        segment_txs(records(txs) + rest, since) == (match segment_txs(rest, since) {
            Ok(more) => Ok::<Seq<Tx>, BinlogError>(above(txs, since) + more),
            Err(e) => Err(e),
        }),
    decreases txs.len(),
{
    if txs.len() == 0 {
        assert(records(txs) + rest =~= rest);
        if let Ok(more) = segment_txs(rest, since) {
            assert(above(txs, since) + more =~= more);
        }
    } else {
        let tx = txs.last();
        let before = txs.drop_last();
        assert forall|i: int| 0 <= i < before.len() implies tx_bytes(#[trigger] before[i]).len()
            <= u64::MAX by {
            assert(before[i] == txs[i]);
        }
        segment_txs_past(before, record(tx) + rest, since);
        assert(records(txs) + rest =~= records(before) + (record(tx) + rest));
        assert(txs[txs.len() - 1] == tx);
        record_stands(tx, rest);
        if let Ok(more) = segment_txs(rest, since) {
            if tx.lsn > since {
                assert(above(before, since) + (seq![tx] + more) =~= above(txs, since) + more);
            }
        }
    }
}

/// Records that were written read back: all those above `since`, in order.
pub proof fn records_read_back(txs: Seq<Tx>, since: u64)
    requires
        forall|i: int| 0 <= i < txs.len() ==> tx_bytes(#[trigger] txs[i]).len() <= u64::MAX,
    ensures
        segment_txs(records(txs), since) == Ok::<Seq<Tx>, BinlogError>(above(txs, since)),
{
    segment_txs_past(txs, seq![], since);
    assert(records(txs) + seq![] =~= records(txs));
    assert(above(txs, since) + seq![] =~= above(txs, since));
}

} // verus!
