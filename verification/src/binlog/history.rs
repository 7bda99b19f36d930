//! What holds of a log over its life: the transactions in its segments, their
//! LSNs, and what a reader or a recovery finds of them.

use crate::binlog::codec::tx_bytes;
use crate::binlog::segment::{
    above, highest_lsn, log_txs, storable, record, records, records_read_back, scan,
    whole_segment_is_read, BinlogError, Scan,
};
use crate::binlog::{with_lsn, Log, Tx};
use vstd::prelude::*;

verus! {

/// The transactions of all segments, in order.
pub open spec fn flat(stored: Seq<Seq<Tx>>) -> Seq<Tx>
    decreases stored.len(),
{
    if stored.len() == 0 {
        seq![]
    } else {
        flat(stored.drop_last()) + stored.last()
    }
}

/// The bytes of segments that hold `stored`.
pub open spec fn files(stored: Seq<Seq<Tx>>) -> Seq<Seq<u8>> {
    stored.map_values(|txs: Seq<Tx>| records(txs))
}

/// `stored[i]` are the transactions of segment `i`: LSNs run on by one, from
/// the LSN that names the segment, through all segments up to the current one.
pub open spec fn holds(log: Log, stored: Seq<Seq<Tx>>) -> bool {
    &&& stored.len() == log.segments.len()
    &&& forall|i: int, j: int|
        0 <= i < stored.len() && 0 <= j < stored[i].len() ==> (#[trigger] stored[i][j]).lsn
            == log.segments[i].0 + j
    &&& forall|i: int|
        0 < i < stored.len() ==> (#[trigger] log.segments[i]).0 == log.segments[i - 1].0
            + stored[i - 1].len()
    &&& stored.len() > 0 ==> log.current_lsn + 1 == log.segments.last().0 + stored.last().len()
}

/// What the segments hold after a rotation.
pub open spec fn rotated(log: Log, stored: Seq<Seq<Tx>>) -> Seq<Seq<Tx>> {
    if log.segments.len() > 0 && log.segments.last().0 == log.current_lsn + 1 {
        stored
    } else {
        stored.push(seq![])
    }
}

/// What the segments hold after a record is written to the last one.
pub open spec fn appended(stored: Seq<Seq<Tx>>, tx: Tx) -> Seq<Seq<Tx>> {
    stored.update(stored.len() - 1, stored.last().push(tx))
}

/// Closing a segment changes nothing of what the log holds.
pub proof fn close_keeps(log: Log, stored: Seq<Seq<Tx>>)
    requires
        holds(log, stored),
        log.open is Some ==> log.segments.len() > 0,
    ensures
        holds(log.closed(), stored),
{
    let next = log.closed();
    if log.open is Some {
        assert forall|i: int| 0 <= i < stored.len() implies (#[trigger] next.segments[i]).0
            == log.segments[i].0 by {}
        assert forall|i: int, j: int|
            0 <= i < stored.len() && 0 <= j < stored[i].len() implies (#[trigger] stored[i][j]).lsn
            == next.segments[i].0 + j by {
            assert(next.segments[i].0 == log.segments[i].0);
        }
        assert forall|i: int| 0 < i < stored.len() implies (#[trigger] next.segments[i]).0
            == next.segments[i - 1].0 + stored[i - 1].len() by {
            assert(log.segments[i].0 == log.segments[i - 1].0 + stored[i - 1].len());
        }
    }
}

/// Opening a segment keeps the order of LSNs and loses nothing.
pub proof fn rotate_keeps(log: Log, stored: Seq<Seq<Tx>>, size: u64)
    requires
        holds(log, stored),
        log.current_lsn < u64::MAX,
    ensures
        holds(log.rotated(size), rotated(log, stored)),
        flat(rotated(log, stored)) == flat(stored),
        rotated(log, stored).len() > 0,
{
    let after = rotated(log, stored);
    if !(log.segments.len() > 0 && log.segments.last().0 == log.current_lsn + 1) {
        assert(after.drop_last() =~= stored);
        assert(flat(after) =~= flat(stored));
        let next = log.rotated(size);
        assert forall|i: int, j: int|
            0 <= i < after.len() && 0 <= j < after[i].len() implies (#[trigger] after[i][j]).lsn
            == next.segments[i].0 + j by {
            assert(stored[i][j].lsn == log.segments[i].0 + j);
        }
        assert forall|i: int| 0 < i < after.len() implies (#[trigger] next.segments[i]).0
            == next.segments[i - 1].0 + after[i - 1].len() by {
            if i < stored.len() {
                assert(log.segments[i].0 == log.segments[i - 1].0 + stored[i - 1].len());
            }
        }
    }
}

/// A transaction that is appended stands behind all others, under the next
/// LSN, and its segment's file grew by its record.
pub proof fn append_keeps(log: Log, stored: Seq<Seq<Tx>>, tx: Tx)
    requires
        holds(log, stored),
        stored.len() > 0,
        log.current_lsn < u64::MAX,
    ensures
        ({
            let lsn = (log.current_lsn + 1) as u64;
            let tx = with_lsn(tx, lsn);
            let n = record(tx).len();
            &&& holds(log.committed(n), appended(stored, tx))
            &&& flat(appended(stored, tx)) == flat(stored).push(tx)
            &&& files(appended(stored, tx)) == files(stored).update(
                stored.len() - 1,
                files(stored).last() + record(tx),
            )
        }),
{
    let lsn = (log.current_lsn + 1) as u64;
    let tx = with_lsn(tx, lsn);
    let after = appended(stored, tx);
    let last = stored.len() - 1;
    assert(after.drop_last() =~= stored.drop_last());
    assert(flat(after) =~= flat(stored).push(tx));
    assert(after.last().drop_last() =~= stored.last());
    assert(files(after) =~= files(stored).update(last, files(stored).last() + record(tx)));
    let next = log.committed(record(tx).len());
    assert forall|i: int, j: int|
        0 <= i < after.len() && 0 <= j < after[i].len() implies (#[trigger] after[i][j]).lsn
        == next.segments[i].0 + j by {
        if i < last || j < stored[i].len() {
            assert(stored[i][j].lsn == log.segments[i].0 + j);
        }
    }
    assert forall|i: int| 0 < i < after.len() implies (#[trigger] next.segments[i]).0
        == next.segments[i - 1].0 + after[i - 1].len() by {
        assert(log.segments[i].0 == log.segments[i - 1].0 + stored[i - 1].len());
    }
}

proof fn flat_first(stored: Seq<Seq<Tx>>)
    requires
        stored.len() > 0,
    ensures
        flat(stored) == stored[0] + flat(stored.drop_first()),
    decreases stored.len(),
{
    if stored.len() == 1 {
        assert(stored.drop_last() =~= seq![]);
        assert(stored.drop_first() =~= seq![]);
        assert(flat(stored) =~= stored[0] + flat(stored.drop_first()));
    } else {
        flat_first(stored.drop_last());
        assert(stored.drop_last().drop_first() =~= stored.drop_first().drop_last());
        assert(flat(stored) =~= stored[0] + flat(stored.drop_first()));
    }
}

/// The LSNs of a log run on by one.
pub proof fn lsns_run_on(log: Log, stored: Seq<Seq<Tx>>)
    requires
        holds(log, stored),
    ensures
        forall|k: int|
            0 <= k < flat(stored).len() ==> (#[trigger] flat(stored)[k]).lsn == log.segments[0].0
                + k,
        stored.len() > 0 ==> log.current_lsn + 1 == log.segments[0].0 + flat(stored).len(),
    decreases stored.len(),
{
    if stored.len() > 0 {
        let n = stored.len() - 1;
        let before = stored.drop_last();
        let shorter = Log {
            segments: log.segments.drop_last(),
            current_lsn: (log.segments[n].0 - 1) as u64,
            ..log
        };
        assert forall|i: int, j: int|
            0 <= i < before.len() && 0 <= j < before[i].len() implies (#[trigger] before[i][j]).lsn
            == shorter.segments[i].0 + j by {
            assert(stored[i][j].lsn == log.segments[i].0 + j);
        }
        assert forall|i: int| 0 < i < before.len() implies (#[trigger] shorter.segments[i]).0
            == shorter.segments[i - 1].0 + before[i - 1].len() by {
            assert(log.segments[i].0 == log.segments[i - 1].0 + stored[i - 1].len());
        }
        if n > 0 {
            assert(log.segments[n].0 == log.segments[n - 1].0 + stored[n - 1].len());
            if log.segments[n].0 > 0 {
                lsns_run_on(shorter, before);
            } else {
                zero_start(log, stored, n);
            }
        } else {
            assert(before =~= seq![]);
        }
        assert forall|k: int| 0 <= k < flat(stored).len() implies (#[trigger] flat(stored)[k]).lsn
            == log.segments[0].0 + k by {
            if k >= flat(before).len() {
                assert(flat(stored)[k] == stored[n][k - flat(before).len()]);
            } else {
                assert(flat(stored)[k] == flat(before)[k]);
            }
        }
    }
}

/// Where a segment starts at LSN 0, all before it are empty and start there.
proof fn zero_start(log: Log, stored: Seq<Seq<Tx>>, n: int)
    requires
        holds(log, stored),
        0 <= n < stored.len(),
        log.segments[n].0 == 0,
    ensures
        log.segments[0].0 == 0,
        flat(stored.take(n)).len() == 0,
    decreases n,
{
    if n > 0 {
        assert(log.segments[n].0 == log.segments[n - 1].0 + stored[n - 1].len());
        zero_start(log, stored, n - 1);
        assert(stored.take(n).drop_last() =~= stored.take(n - 1));
    }
}

proof fn above_append(a: Seq<Tx>, b: Seq<Tx>, since: u64)
    ensures
        above(a + b, since) == above(a, since) + above(b, since),
    decreases b.len(),
{
    if b.len() == 0 {
        assert(a + b =~= a);
        assert(above(a, since) + above(b, since) =~= above(a, since));
    } else {
        above_append(a, b.drop_last(), since);
        assert((a + b).drop_last() =~= a + b.drop_last());
        assert(above(a + b, since) =~= above(a, since) + above(b, since));
    }
}

/// Every transaction in `stored` makes a record of at most `max` bytes.
pub open spec fn within_size(stored: Seq<Seq<Tx>>, max: nat) -> bool {
    forall|i: int, j: int|
        0 <= i < stored.len() && 0 <= j < stored[i].len() ==> tx_bytes(
            #[trigger] stored[i][j],
        ).len() <= max
}

/// A reader finds the transactions above `since`, all of them and in order.
pub proof fn reading_finds_all(stored: Seq<Seq<Tx>>, since: u64)
    requires
        within_size(stored, u64::MAX as nat),
    ensures
        log_txs(files(stored), since) == Ok::<Seq<Tx>, BinlogError>(above(flat(stored), since)),
    decreases stored.len(),
{
    if stored.len() > 0 {
        let before = stored.drop_last();
        let n = stored.len() - 1;
        assert forall|i: int, j: int|
            0 <= i < before.len() && 0 <= j < before[i].len() implies tx_bytes(
            #[trigger] before[i][j],
        ).len() <= u64::MAX by {
            assert(before[i][j] == stored[i][j]);
        }
        reading_finds_all(before, since);
        assert(files(stored).drop_last() =~= files(before));
        assert forall|j: int| 0 <= j < stored[n].len() implies tx_bytes(
            #[trigger] stored[n][j],
        ).len() <= u64::MAX by {}
        records_read_back(stored[n], since);
        above_append(flat(before), stored[n], since);
    }
}

/// What a reader finds is the log from a point on: no LSN is missing.
pub proof fn reading_is_a_suffix(log: Log, stored: Seq<Seq<Tx>>, since: u64)
    requires
        holds(log, stored),
        stored.len() > 0,
        log.segments[0].0 <= since + 1,
        since <= log.current_lsn,
    ensures
        above(flat(stored), since) == flat(stored).skip(since + 1 - log.segments[0].0),
{
    lsns_run_on(log, stored);
    above_run(flat(stored), log.segments[0].0 as int, since);
}

proof fn above_run(txs: Seq<Tx>, start: int, since: u64)
    requires
        forall|k: int| 0 <= k < txs.len() ==> (#[trigger] txs[k]).lsn == start + k,
        start <= since + 1,
        since + 1 - start <= txs.len(),
    ensures
        above(txs, since) == txs.skip(since + 1 - start),
    decreases txs.len(),
{
    if txs.len() == 0 {
        assert(txs.skip(since + 1 - start) =~= seq![]);
    } else {
        let last = txs.len() - 1;
        assert(txs[last].lsn == start + last);
        if txs[last].lsn > since {
            above_run(txs.drop_last(), start, since);
            assert(txs.drop_last().skip(since + 1 - start).push(txs.last()) =~= txs.skip(
                since + 1 - start,
            ));
        } else {
            above_none(txs, since);
            assert(txs.skip(since + 1 - start) =~= seq![]);
        }
    }
}

proof fn above_none(txs: Seq<Tx>, since: u64)
    requires
        forall|k: int| 0 <= k < txs.len() ==> (#[trigger] txs[k]).lsn <= since,
    ensures
        above(txs, since) == Seq::<Tx>::empty(),
    decreases txs.len(),
{
    if txs.len() > 0 {
        assert(txs[txs.len() - 1].lsn <= since);
        above_none(txs.drop_last(), since);
    }
}

/// Removing the oldest segment loses nothing to a reader whose request is not
/// refused: everything above an LSN of at least `min_lsn` is still there.
pub proof fn gc_keeps(log: Log, stored: Seq<Seq<Tx>>, since: u64)
    requires
        holds(log, stored),
        log.over_limit(),
    ensures
        ({
            let next = log.unlisted().removed();
            &&& holds(next, stored.drop_first())
            &&& next.segments.len() > 0
            &&& next.min_lsn == next.segments[0].0
            &&& next.current_lsn == log.current_lsn
            &&& stored.last().len() > 0 ==> flat(stored.drop_first()).len() > 0
            &&& since >= next.min_lsn ==> above(flat(stored.drop_first()), since) == above(
                flat(stored),
                since,
            )
        }),
{
    let next = log.unlisted().removed();
    let after = stored.drop_first();
    assert forall|i: int, j: int|
        0 <= i < after.len() && 0 <= j < after[i].len() implies (#[trigger] after[i][j]).lsn
        == next.segments[i].0 + j by {
        assert(stored[i + 1][j].lsn == log.segments[i + 1].0 + j);
    }
    assert forall|i: int| 0 < i < after.len() implies (#[trigger] next.segments[i]).0
        == next.segments[i - 1].0 + after[i - 1].len() by {
        assert(log.segments[i + 1].0 == log.segments[i].0 + stored[i].len());
    }
    assert(after.last() == stored.last());
    if since >= next.min_lsn {
        flat_first(stored);
        above_append(stored[0], flat(after), since);
        assert(log.segments[1].0 == log.segments[0].0 + stored[0].len());
        assert forall|k: int| 0 <= k < stored[0].len() implies (#[trigger] stored[0][k]).lsn
            <= since by {
            assert(stored[0][k].lsn == log.segments[0].0 + k);
        }
        above_none(stored[0], since);
        assert(Seq::<Tx>::empty() + above(flat(after), since) =~= above(flat(after), since));
    }
}

/// The LSN that scans of segments, one after the other, arrive at.
pub open spec fn scanned_lsn(fs: Seq<Seq<u8>>) -> Option<u64>
    decreases fs.len(),
{
    if fs.len() == 0 {
        Some(0)
    } else {
        match scanned_lsn(fs.drop_last()) {
            Some(lsn) => match scan(fs.last(), lsn, 0) {
                Scan::Read(higher, _, _) => Some(higher),
                Scan::Refused(_) => None,
            },
            None => None,
        }
    }
}

proof fn scanned_highest(stored: Seq<Seq<Tx>>)
    requires
        within_size(stored, u64::MAX as nat),
    ensures
        scanned_lsn(files(stored)) == Some(highest_lsn(0, flat(stored))),
    decreases stored.len(),
{
    if stored.len() > 0 {
        let before = stored.drop_last();
        let n = stored.len() - 1;
        assert forall|i: int, j: int|
            0 <= i < before.len() && 0 <= j < before[i].len() implies tx_bytes(
            #[trigger] before[i][j],
        ).len() <= u64::MAX by {
            assert(before[i][j] == stored[i][j]);
        }
        scanned_highest(before);
        assert(files(stored).drop_last() =~= files(before));
        assert(storable(stored[n])) by {
            assert forall|j: int| 0 <= j < stored[n].len() implies tx_bytes(
                #[trigger] stored[n][j],
            ).len() <= u64::MAX by {}
        }
        let lsn = highest_lsn(0, flat(before));
        whole_segment_is_read(stored[n], lsn);
        highest_append(0, flat(before), stored[n]);
    }
}

proof fn highest_append(lsn: u64, a: Seq<Tx>, b: Seq<Tx>)
    ensures
        highest_lsn(lsn, a + b) == highest_lsn(highest_lsn(lsn, a), b),
    decreases b.len(),
{
    if b.len() == 0 {
        assert(a + b =~= a);
    } else {
        highest_append(lsn, a, b.drop_last());
        assert((a + b).drop_last() =~= a + b.drop_last());
    }
}

proof fn highest_run(txs: Seq<Tx>, start: int)
    requires
        forall|k: int| 0 <= k < txs.len() ==> (#[trigger] txs[k]).lsn == start + k,
        txs.len() > 0,
    ensures
        highest_lsn(0, txs) == start + txs.len() - 1,
    decreases txs.len(),
{
    let last = txs.len() - 1;
    assert(txs[last].lsn == start + last);
    if last > 0 {
        highest_run(txs.drop_last(), start);
    } else {
        assert(highest_lsn(0, txs.drop_last()) == 0);
    }
}

/// A log that is opened again goes on where it was: recovery finds the LSN of
/// the last record, or 0 where there never was one.
pub proof fn recovery_finds_current_lsn(log: Log, stored: Seq<Seq<Tx>>)
    requires
        holds(log, stored),
        within_size(stored, u64::MAX as nat),
        flat(stored).len() > 0 || log.current_lsn == 0,
    ensures
        scanned_lsn(files(stored)) == Some(log.current_lsn),
{
    lsns_run_on(log, stored);
    scanned_highest(stored);
    if flat(stored).len() > 0 {
        highest_run(flat(stored), log.segments[0].0 as int);
    }
}

/// What the log tells replicas of what it retains is true: the oldest segment
/// starts no later than right behind `min_lsn`, and where there is no segment
/// there is nothing above it.
pub open spec fn serves(log: Log) -> bool {
    if log.segments.len() > 0 {
        log.segments[0].0 <= log.min_lsn + 1
    } else {
        log.current_lsn == log.min_lsn
    }
}

/// The watermark stays true while segments are closed and opened, records are
/// appended and the oldest segments are removed.
pub proof fn watermark_stays_true(log: Log, size: u64, written: nat)
    requires
        serves(log),
        log.current_lsn < u64::MAX,
        log.open is Some ==> log.segments.len() > 0,
    ensures
        serves(log.closed()),
        serves(log.rotated(size)),
        log.segments.len() > 0 ==> serves(log.committed(written)),
        log.over_limit() ==> serves(log.unlisted().removed()),
{
}

/// A replica whose request is not refused misses nothing: it gets every
/// transaction behind the one it has, up to the current one, in order.
pub proof fn accepted_reader_misses_nothing(log: Log, stored: Seq<Seq<Tx>>, since: u64)
    requires
        holds(log, stored),
        serves(log),
        within_size(stored, u64::MAX as nat),
        log.min_lsn <= since <= log.current_lsn,
    ensures
        ({
            let found = log_txs(files(stored), since);
            &&& found is Ok
            &&& found->Ok_0.len() == log.current_lsn - since
            &&& forall|k: int|
                0 <= k < found->Ok_0.len() ==> (#[trigger] found->Ok_0[k]).lsn == since + 1 + k
        }),
{
    reading_finds_all(stored, since);
    lsns_run_on(log, stored);
    if stored.len() > 0 {
        reading_is_a_suffix(log, stored, since);
    }
}

// ---------------------------------------------------------------------------
// Runs of calls
// ---------------------------------------------------------------------------

/// A log, and the bytes of its segments' files.
#[verifier::ext_equal]
pub struct Disk {
    pub log: Log,
    pub files: Seq<Seq<u8>>,
}

/// The log of an empty directory.
pub open spec fn empty_disk(max_segment_bytes: u64, max_total_bytes: u64) -> Disk {
    Disk {
        log: Log {
            current_lsn: 0,
            min_lsn: 0,
            max_segment_bytes,
            max_total_bytes,
            segments: seq![],
            open: None,
        },
        files: seq![],
    }
}

/// The segment of the next record is opened, and its file made where it is not
/// there.
pub open spec fn rotated_disk(d: Disk) -> Disk {
    let log = d.log.closed();
    if log.segments.len() > 0 && log.segments.last().0 == log.current_lsn + 1 {
        Disk { log: log.rotated(d.files.last().len() as u64), ..d }
    } else {
        Disk { log: log.rotated(0), files: d.files.push(seq![]) }
    }
}

/// Segments are removed, oldest first, until the limit is kept.
pub open spec fn collected(d: Disk) -> Disk
    decreases d.log.segments.len(),
{
    if d.log.over_limit() {
        collected(Disk { log: d.log.unlisted().removed(), files: d.files.drop_first() })
    } else {
        d
    }
}

/// A transaction is appended, and every write succeeds: `append`, `rotate`,
/// `committed`, `gc_next` and `gc_removed` in turn.
pub open spec fn written(d: Disk, tx: Tx) -> Disk {
    match d.log.appending(tx) {
        None => d,
        Some((_, rotate, bytes)) => {
            let at = if rotate {
                rotated_disk(d)
            } else {
                d
            };
            collected(
                Disk {
                    log: at.log.committed(bytes.len()),
                    files: at.files.update(at.files.len() - 1, at.files.last() + bytes),
                },
            )
        },
    }
}

/// Transactions are appended, one after the other.
pub open spec fn written_all(d: Disk, txs: Seq<Tx>) -> Disk
    decreases txs.len(),
{
    if txs.len() == 0 {
        d
    } else {
        written(written_all(d, txs.drop_last()), txs.last())
    }
}

/// The transactions that changed something, under the LSNs 1, 2, ...
pub open spec fn numbered(txs: Seq<Tx>) -> Seq<Tx>
    decreases txs.len(),
{
    if txs.len() == 0 {
        seq![]
    } else {
        let before = numbered(txs.drop_last());
        let tx = txs.last();
        if tx.rows.len() == 0 && tx.ddl.len() == 0 {
            before
        } else {
            before.push(with_lsn(tx, (before.len() + 1) as u64))
        }
    }
}

/// Whether the files hold `stored`, the end of `all`.
spec fn keeps(d: Disk, stored: Seq<Seq<Tx>>, all: Seq<Tx>) -> bool {
    &&& holds(d.log, stored)
    &&& serves(d.log)
    &&& d.files == files(stored)
    &&& d.log.open is Some ==> d.log.segments.len() > 0
    &&& d.log.current_lsn == all.len()
    &&& flat(stored).len() <= all.len()
    &&& flat(stored) == all.skip(all.len() - flat(stored).len())
    &&& all.len() > 0 ==> stored.len() > 0 && stored.last().len() > 0
}

proof fn collecting_keeps(d: Disk, stored: Seq<Seq<Tx>>, all: Seq<Tx>) -> (after: Seq<Seq<Tx>>)
    requires
        keeps(d, stored, all),
        all.len() > 0,
    ensures
        keeps(collected(d), after, all),
        collected(d).log.current_lsn == d.log.current_lsn,
    decreases d.log.segments.len(),
{
    if d.log.over_limit() {
        let next = Disk { log: d.log.unlisted().removed(), files: d.files.drop_first() };
        let left = stored.drop_first();
        gc_keeps(d.log, stored, 0);
        flat_first(stored);
        assert(files(left) =~= next.files);
        assert(left.last() == stored.last());
        assert forall|k: int| 0 <= k < flat(left).len() implies flat(left)[k] == all.skip(
            all.len() - flat(left).len(),
        )[k] by {
            assert(flat(left)[k] == flat(stored)[stored[0].len() + k]);
        }
        assert(flat(left) =~= all.skip(all.len() - flat(left).len()));
        collecting_keeps(next, left, all)
    } else {
        stored
    }
}

proof fn rotating_keeps(d: Disk, stored: Seq<Seq<Tx>>, all: Seq<Tx>) -> (after: Seq<Seq<Tx>>)
    requires
        keeps(d, stored, all),
        d.log.current_lsn < u64::MAX,
    ensures
        ({
            let next = rotated_disk(d);
            &&& holds(next.log, after)
            &&& serves(next.log)
            &&& next.files == files(after)
            &&& after.len() > 0
            &&& next.log.open is Some
            &&& next.log.segments.len() > 0
            &&& next.log.current_lsn == d.log.current_lsn
            &&& flat(after) == flat(stored)
        }),
{
    let log = d.log.closed();
    close_keeps(d.log, stored);
    watermark_stays_true(d.log, 0, 0);
    watermark_stays_true(log, d.files.last().len() as u64, 0);
    watermark_stays_true(log, 0, 0);
    rotate_keeps(log, stored, d.files.last().len() as u64);
    rotate_keeps(log, stored, 0);
    let after = rotated(log, stored);
    assert(records(seq![]) =~= seq![]);
    assert(rotated_disk(d).files =~= files(after));
    after
}

proof fn writing_keeps(d: Disk, stored: Seq<Seq<Tx>>, all: Seq<Tx>, tx: Tx) -> (after: Seq<
    Seq<Tx>,
>)
    requires
        keeps(d, stored, all),
        d.log.current_lsn < u64::MAX,
        tx.rows.len() > 0 || tx.ddl.len() > 0,
    ensures
        keeps(written(d, tx), after, all.push(with_lsn(tx, (all.len() + 1) as u64))),
{
    let lsn = (d.log.current_lsn + 1) as u64;
    let tx = with_lsn(tx, lsn);
    let rotates = d.log.rotates(tx_bytes(tx).len());
    let at = if rotates {
        rotated_disk(d)
    } else {
        d
    };
    let mid = if rotates {
        rotating_keeps(d, stored, all)
    } else {
        stored
    };
    append_keeps(at.log, mid, tx);
    watermark_stays_true(at.log, 0, record(tx).len());
    let next = Disk {
        log: at.log.committed(record(tx).len()),
        files: at.files.update(at.files.len() - 1, at.files.last() + record(tx)),
    };
    let after = appended(mid, tx);
    let more = all.push(tx);
    assert(with_lsn(tx, lsn) == tx);
    assert(flat(after) =~= more.skip(more.len() - flat(after).len()));
    assert(keeps(next, after, more));
    collecting_keeps(next, after, more)
}

proof fn run_keeps(max_segment_bytes: u64, max_total_bytes: u64, txs: Seq<Tx>) -> (stored: Seq<
    Seq<Tx>,
>)
    requires
        txs.len() <= u64::MAX,
    ensures
        keeps(
            written_all(empty_disk(max_segment_bytes, max_total_bytes), txs),
            stored,
            numbered(txs),
        ),
        numbered(txs).len() <= txs.len(),
        forall|k: int|
            0 <= k < numbered(txs).len() ==> (#[trigger] numbered(txs)[k]).lsn == k + 1,
    decreases txs.len(),
{
    let start = empty_disk(max_segment_bytes, max_total_bytes);
    if txs.len() == 0 {
        let stored = Seq::<Seq<Tx>>::empty();
        assert(files(stored) =~= start.files);
        assert(numbered(txs).skip(0) =~= flat(stored));
        stored
    } else {
        let before = txs.drop_last();
        let stored = run_keeps(max_segment_bytes, max_total_bytes, before);
        let tx = txs.last();
        if tx.rows.len() == 0 && tx.ddl.len() == 0 {
            stored
        } else {
            writing_keeps(written_all(start, before), stored, numbered(before), tx)
        }
    }
}

/// Whether each transaction has a length that a record can be stored with,
/// under whatever LSN.
pub open spec fn all_storable(txs: Seq<Tx>) -> bool {
    forall|i: int, lsn: u64|
        0 <= i < txs.len() ==> tx_bytes(#[trigger] with_lsn(txs[i], lsn)).len() <= u64::MAX
}

proof fn numbered_storable(txs: Seq<Tx>)
    requires
        all_storable(txs),
    ensures
        storable(numbered(txs)),
    decreases txs.len(),
{
    if txs.len() > 0 {
        let before = txs.drop_last();
        assert forall|i: int, lsn: u64| 0 <= i < before.len() implies tx_bytes(
            #[trigger] with_lsn(before[i], lsn),
        ).len() <= u64::MAX by {
            assert(with_lsn(before[i], lsn) == with_lsn(txs[i], lsn));
        }
        numbered_storable(before);
        let lsn = (numbered(before).len() + 1) as u64;
        assert(tx_bytes(with_lsn(txs[txs.len() - 1], lsn)).len() <= u64::MAX);
    }
}

proof fn flat_storable(stored: Seq<Seq<Tx>>)
    requires
        storable(flat(stored)),
    ensures
        within_size(stored, u64::MAX as nat),
    decreases stored.len(),
{
    if stored.len() > 0 {
        let before = stored.drop_last();
        let all = flat(stored);
        assert forall|i: int| 0 <= i < flat(before).len() implies tx_bytes(
            #[trigger] flat(before)[i],
        ).len() <= u64::MAX by {
            assert(flat(before)[i] == all[i]);
        }
        flat_storable(before);
        assert forall|i: int, j: int|
            0 <= i < stored.len() && 0 <= j < stored[i].len() implies tx_bytes(
            #[trigger] stored[i][j],
        ).len() <= u64::MAX by {
            if i < before.len() {
                assert(stored[i][j] == before[i][j]);
            } else {
                assert(stored[i][j] == all[flat(before).len() + j]);
            }
        }
    }
}

/// What a log retains, after any number of appends, rotations and collections
/// from an empty directory on: a reader above any LSN from the watermark on
/// gets every transaction that was appended since, each once, in order and
/// under its LSN.
pub proof fn reader_gets_what_was_appended(
    max_segment_bytes: u64,
    max_total_bytes: u64,
    txs: Seq<Tx>,
    since: u64,
)
    requires
        txs.len() <= u64::MAX,
        all_storable(txs),
        ({
            let log = written_all(empty_disk(max_segment_bytes, max_total_bytes), txs).log;
            log.min_lsn <= since <= log.current_lsn
        }),
    ensures
        ({
            let d = written_all(empty_disk(max_segment_bytes, max_total_bytes), txs);
            let all = numbered(txs);
            &&& d.log.current_lsn == all.len()
            &&& log_txs(d.files, since) == Ok::<Seq<Tx>, BinlogError>(all.skip(since as int))
            &&& forall|k: int| 0 <= k < all.len() ==> (#[trigger] all[k]).lsn == k + 1
        }),
{
    let d = written_all(empty_disk(max_segment_bytes, max_total_bytes), txs);
    let stored = run_keeps(max_segment_bytes, max_total_bytes, txs);
    let all = numbered(txs);
    let kept = flat(stored);
    numbered_storable(txs);
    assert(storable(kept)) by {
        assert forall|i: int| 0 <= i < kept.len() implies tx_bytes(#[trigger] kept[i]).len()
            <= u64::MAX by {
            assert(kept[i] == all[all.len() - kept.len() + i]);
        }
    }
    flat_storable(stored);
    reading_finds_all(stored, since);
    lsns_run_on(d.log, stored);
    if stored.len() > 0 {
        reading_is_a_suffix(d.log, stored, since);
        assert(kept.skip(since + 1 - d.log.segments[0].0) =~= all.skip(since as int));
    } else {
        assert(above(kept, since) =~= all.skip(since as int));
    }
}

/// What append gives is what a reader finds: the transaction takes the next
/// LSN, whatever LSN it carried, and a reader above the last one gets it alone.
pub proof fn append_is_read_back(
    max_segment_bytes: u64,
    max_total_bytes: u64,
    txs: Seq<Tx>,
    tx: Tx,
)
    requires
        txs.len() < u64::MAX,
        all_storable(txs.push(tx)),
        tx.rows.len() > 0 || tx.ddl.len() > 0,
    ensures
        ({
            let before = written_all(empty_disk(max_segment_bytes, max_total_bytes), txs);
            let after = written(before, tx);
            let lsn = before.log.current_lsn;
            &&& after.log.current_lsn == lsn + 1
            &&& lsn >= after.log.min_lsn ==> log_txs(after.files, lsn) == Ok::<
                Seq<Tx>,
                BinlogError,
            >(seq![with_lsn(tx, (lsn + 1) as u64)])
        }),
{
    let start = empty_disk(max_segment_bytes, max_total_bytes);
    let more = txs.push(tx);
    assert(more.drop_last() =~= txs);
    let before = written_all(start, txs);
    let after = written(before, tx);
    let _ = run_keeps(max_segment_bytes, max_total_bytes, txs);
    let _ = run_keeps(max_segment_bytes, max_total_bytes, more);
    assert(written_all(start, more) == after);
    if before.log.current_lsn >= after.log.min_lsn {
        reader_gets_what_was_appended(
            max_segment_bytes,
            max_total_bytes,
            more,
            before.log.current_lsn,
        );
        assert(numbered(more).skip(before.log.current_lsn as int) =~= seq![
            with_lsn(tx, (before.log.current_lsn + 1) as u64),
        ]);
    }
}

/// A log that was only appended to goes on where it was when it is opened
/// again, however long its records are.
pub proof fn reopened_log_goes_on(max_segment_bytes: u64, max_total_bytes: u64, txs: Seq<Tx>)
    requires
        txs.len() <= u64::MAX,
        all_storable(txs),
    ensures
        ({
            let d = written_all(empty_disk(max_segment_bytes, max_total_bytes), txs);
            scanned_lsn(d.files) == Some(d.log.current_lsn)
        }),
{
    let d = written_all(empty_disk(max_segment_bytes, max_total_bytes), txs);
    let stored = run_keeps(max_segment_bytes, max_total_bytes, txs);
    let all = numbered(txs);
    let kept = flat(stored);
    numbered_storable(txs);
    assert(storable(kept)) by {
        assert forall|i: int| 0 <= i < kept.len() implies tx_bytes(#[trigger] kept[i]).len()
            <= u64::MAX by {
            assert(kept[i] == all[all.len() - kept.len() + i]);
        }
    }
    flat_storable(stored);
    recovery_finds_current_lsn(d.log, stored);
}

/// An append that fails takes no LSN, wherever it fails: behind the closing of
/// the old segment, the opening of the new one or a write.
pub proof fn failed_append_takes_no_lsn(log: Log, size: u64, open: Option<u64>)
    ensures
        log.closed().current_lsn == log.current_lsn,
        log.rotated(size).current_lsn == log.current_lsn,
        (Log { open, ..log }).current_lsn == log.current_lsn,
{
}

} // verus!
