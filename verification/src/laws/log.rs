//! The log: every transaction with changes takes the next LSN and is stored as
//! it is, segments keep to their sizes, and what is retained is told truly.

use crate::binlog::codec::{parse_tx, tx_bytes};
use crate::binlog::history::{collected, rotated_disk, scanned_lsn, written, Disk};
use crate::binlog::segment::{
    log_txs, named_lsn, next_is_first, next_tx, parse_frame, record_stands, scan, segment_name,
    segment_name_reads_back, segment_txs, BinlogError, Frame, Next, Reader, Scan, Stepped,
};
use crate::binlog::{
    entry_views, insert_segment, segments_of, total_size, with_lsn, Log, Recovered, Tx,
};
use crate::sync::{lag_message, opened, watermarks};
use crate::text::decimal;
use crate::wire::{varint, varint_range_u64, varint_round_trip};
use vstd::prelude::*;

verus! {

// ---------------------------------------------------------------------------
// Appending
// ---------------------------------------------------------------------------

/// A transaction with changes, however many, takes the LSN behind the current
/// one, and its record holds it: read back, it is that transaction under that
/// LSN. One without changes takes none.
pub proof fn changes_take_the_next_lsn(log: Log, tx: Tx, rest: Seq<u8>)
    requires
        log.current_lsn < u64::MAX,
        tx_bytes(with_lsn(tx, (log.current_lsn + 1) as u64)).len() <= u64::MAX,
    ensures
        tx.rows.len() == 0 && tx.ddl.len() == 0 <==> log.appending(tx) is None,
        log.appending(tx) matches Some((lsn, rotate, bytes)) ==> {
            &&& lsn == log.current_lsn + 1
            &&& log.open is None ==> rotate
            &&& parse_frame(bytes + rest) matches Frame::Record(body, n) && n == bytes.len()
                && parse_tx(body) == Some(
                Tx { lsn, commit_ts_ms: tx.commit_ts_ms, rows: tx.rows, ddl: tx.ddl },
            )
        },
{
    if log.appending(tx) is Some {
        record_stands(with_lsn(tx, (log.current_lsn + 1) as u64), rest);
    }
}

/// A segment that has a record already never grows past its limit: a record
/// that could take it there goes into a new one. Only such a record does, but
/// for the 16 bytes that are kept free for its length.
pub proof fn segments_keep_to_their_size(log: Log, tx: Tx, size: u64)
    requires
        log.current_lsn < u64::MAX,
        tx_bytes(with_lsn(tx, (log.current_lsn + 1) as u64)).len() <= u64::MAX,
        log.open == Some(size),
    ensures
        log.appending(tx) matches Some((_, rotate, bytes)) ==> {
            &&& !rotate ==> size + bytes.len() <= log.max_segment_bytes
            &&& rotate ==> size + bytes.len() + 16 > log.max_segment_bytes
        },
{
    let body = tx_bytes(with_lsn(tx, (log.current_lsn + 1) as u64));
    varint_range_u64();
    varint_round_trip(body.len(), seq![], 10);
    assert(varint(body.len()) + seq![] =~= varint(body.len()));
}

// ---------------------------------------------------------------------------
// Sizes and collection
// ---------------------------------------------------------------------------

/// The size of segments together is the sum of their sizes.
pub proof fn total_size_is_the_sum(a: Seq<(u64, u64)>, x: (u64, u64), b: Seq<(u64, u64)>)
    ensures
        total_size(a + b) == total_size(a) + total_size(b),
        total_size(seq![x]) == x.1,
        total_size(Seq::<(u64, u64)>::empty()) == 0,
    decreases b.len(),
{
    reveal_with_fuel(total_size, 2);
    assert(seq![x].drop_last() =~= Seq::<(u64, u64)>::empty());
    if b.len() == 0 {
        assert(a + b =~= a);
    } else {
        total_size_is_the_sum(a, x, b.drop_last());
        assert((a + b).drop_last() =~= a + b.drop_last());
    }
}

/// Segments are removed only while there are several that are together over the
/// limit, oldest first, and until they are not: what is left are the last ones,
/// the newest among them.
pub proof fn collection_keeps_to_the_limit(d: Disk)
    requires
        d.files.len() == d.log.segments.len(),
    ensures
        ({
            let after = collected(d);
            let n = d.log.segments.len() - after.log.segments.len();
            &&& 0 <= n
            &&& after.log.segments == d.log.segments.skip(n)
            &&& after.files == d.files.skip(n)
            &&& after.log.current_lsn == d.log.current_lsn
            &&& d.log.segments.len() > 0 ==> after.log.segments.len() > 0
            &&& after.log.segments.len() > 1 ==> total_size(after.log.segments)
                <= d.log.max_total_bytes
            &&& total_size(d.log.segments) <= d.log.max_total_bytes ==> after == d
            &&& n > 0 ==> after.log.min_lsn == after.log.segments[0].0
            &&& n == 0 ==> after.log.min_lsn == d.log.min_lsn
        }),
    decreases d.log.segments.len(),
{
    if d.log.over_limit() {
        let next = Disk { log: d.log.unlisted().removed(), files: d.files.drop_first() };
        collection_keeps_to_the_limit(next);
        let after = collected(d);
        let n = d.log.segments.len() - after.log.segments.len();
        assert(next.log.segments.skip(n - 1) =~= d.log.segments.skip(n));
        assert(next.files.skip(n - 1) =~= d.files.skip(n));
    } else {
        assert(d.log.segments.skip(0) =~= d.log.segments);
        assert(d.files.skip(0) =~= d.files);
    }
}

/// Whether the sizes that a log knows are those of its files: of all segments
/// that are closed, and of the open one.
pub open spec fn true_sizes(d: Disk) -> bool {
    &&& d.files.len() == d.log.segments.len()
    &&& d.log.open is Some ==> d.files.len() > 0
    &&& d.log.open matches Some(size) ==> size == d.files.last().len()
    &&& forall|i: int|
        0 <= i < d.files.len() && (d.log.open is None || i < d.files.len() - 1) ==> (
        #[trigger] d.log.segments[i]).1 == d.files[i].len()
}

proof fn rotating_keeps_sizes(d: Disk)
    requires
        true_sizes(d),
        d.log.current_lsn < u64::MAX,
        d.files.len() > 0 ==> d.files.last().len() <= u64::MAX,
    ensures
        true_sizes(rotated_disk(d)),
        rotated_disk(d).log.open is Some,
        rotated_disk(d).files.len() > 0,
        rotated_disk(d).files.last().len() == 0 || (d.files.len() > 0 && rotated_disk(
            d,
        ).files.last() == d.files.last()),
{
    let log = d.log.closed();
    let after = rotated_disk(d);
    assert forall|i: int| 0 <= i < d.files.len() implies (#[trigger] log.segments[i]).1
        == d.files[i].len() by {
        if i < d.files.len() - 1 {
            assert(d.log.segments[i].1 == d.files[i].len());
        } else if d.log.open is None {
            assert(d.log.segments[i].1 == d.files[i].len());
        }
    }
    assert forall|i: int| 0 <= i < after.files.len() - 1 implies (
    #[trigger] after.log.segments[i]).1 == after.files[i].len() by {
        assert(log.segments[i].1 == d.files[i].len());
    }
}

proof fn collecting_keeps_sizes(d: Disk)
    requires
        true_sizes(d),
    ensures
        true_sizes(collected(d)),
{
    collection_keeps_to_the_limit(d);
    let after = collected(d);
    let n = d.log.segments.len() - after.log.segments.len();
    collected_open(d);
    assert forall|i: int|
        0 <= i < after.files.len() && (after.log.open is None || i < after.files.len()
            - 1) implies (#[trigger] after.log.segments[i]).1 == after.files[i].len() by {
        assert(after.log.segments[i] == d.log.segments[n + i]);
        assert(after.files[i] == d.files[n + i]);
    }
}

proof fn collected_open(d: Disk)
    ensures
        collected(d).log.open == d.log.open,
    decreases d.log.segments.len(),
{
    if d.log.over_limit() {
        collected_open(
            Disk { log: d.log.unlisted().removed(), files: d.files.drop_first() },
        );
    }
}

/// The sizes that a log knows stay those of its files, whatever is appended: so
/// segments are opened and removed by the sizes they have.
pub proof fn sizes_stay_true(d: Disk, tx: Tx)
    requires
        true_sizes(d),
        d.log.current_lsn < u64::MAX,
        d.files.len() > 0 ==> d.files.last().len() <= u64::MAX,
        d.log.appending(tx) matches Some((_, _, bytes)) ==> bytes.len() + (if d.files.len() > 0 {
            d.files.last().len()
        } else {
            0
        }) <= u64::MAX,
    ensures
        true_sizes(written(d, tx)),
{
    if let Some((_, rotate, bytes)) = d.log.appending(tx) {
        let at = if rotate {
            rotated_disk(d)
        } else {
            d
        };
        rotating_keeps_sizes(d);
        let next = Disk {
            log: at.log.committed(bytes.len()),
            files: at.files.update(at.files.len() - 1, at.files.last() + bytes),
        };
        assert(d.log.open is Some || rotate);
        assert forall|i: int| 0 <= i < next.files.len() - 1 implies (
        #[trigger] next.log.segments[i]).1 == next.files[i].len() by {
            assert(at.log.segments[i].1 == at.files[i].len());
        }
        assert(true_sizes(next));
        collecting_keeps_sizes(next);
    }
}

// ---------------------------------------------------------------------------
// Opening again
// ---------------------------------------------------------------------------

/// The recovery of a log from its segments' files, one after the other.
pub open spec fn recovering(starts: Seq<(u64, u64)>, files: Seq<Seq<u8>>) -> Option<Recovered>
    decreases files.len(),
{
    if files.len() == 0 {
        Some(Recovered { segments: starts, scanned: 0, current_lsn: 0 })
    } else {
        match recovering(starts, files.drop_last()) {
            Some(found) => match found.scanning(files.last()) {
                Ok((next, _)) => Some(next),
                Err(_) => None,
            },
            None => None,
        }
    }
}

proof fn recovering_finds(starts: Seq<(u64, u64)>, files: Seq<Seq<u8>>)
    requires
        files.len() <= starts.len(),
        scanned_lsn(files) is Some,
        forall|i: int| 0 <= i < files.len() ==> (#[trigger] files[i]).len() <= u64::MAX,
        forall|i: int, lsn: u64|
            0 <= i < files.len() ==> !(#[trigger] scan(files[i], lsn, 0) matches Scan::Read(
                _,
                _,
                true,
            )),
    ensures
        ({
            let found = recovering(starts, files);
            &&& found is Some
            &&& found->Some_0.current_lsn == scanned_lsn(files)->Some_0
            &&& found->Some_0.scanned == files.len()
            &&& found->Some_0.segments.len() == starts.len()
            &&& forall|i: int|
                0 <= i < starts.len() ==> (#[trigger] found->Some_0.segments[i]).0 == starts[i].0
            &&& forall|i: int|
                0 <= i < files.len() ==> (#[trigger] found->Some_0.segments[i]).1
                    == files[i].len()
        }),
    decreases files.len(),
{
    if files.len() > 0 {
        let before = files.drop_last();
        assert forall|i: int| 0 <= i < before.len() implies (#[trigger] before[i]).len()
            <= u64::MAX by {
            assert(before[i] == files[i]);
        }
        assert forall|i: int, lsn: u64| 0 <= i < before.len() implies !(#[trigger] scan(
            before[i],
            lsn,
            0,
        ) matches Scan::Read(_, _, true)) by {
            assert(before[i] == files[i]);
        }
        recovering_finds(starts, before);
        let found = recovering(starts, before)->Some_0;
        let n = files.len() - 1;
        assert(files[n] == files.last());
        assert(!(scan(files[n], found.current_lsn, 0) matches Scan::Read(_, _, true)));
        let next = recovering(starts, files)->Some_0;
        assert forall|i: int| 0 <= i < files.len() implies (#[trigger] next.segments[i]).1
            == files[i].len() by {
            if i < n {
                assert(found.segments[i].1 == before[i].len());
            }
        }
        assert forall|i: int| 0 <= i < starts.len() implies (#[trigger] next.segments[i]).0
            == starts[i].0 by {
            assert(found.segments[i].0 == starts[i].0);
        }
    }
}

/// A log that is opened again from whole files knows the segments that there
/// are, with their sizes; its current LSN is the last one read, and the oldest
/// LSN it tells is that of its first segment, or zero where there is none.
pub proof fn opened_log_tells_what_is_there(
    starts: Seq<(u64, u64)>,
    files: Seq<Seq<u8>>,
    max_segment_bytes: u64,
    max_total_bytes: u64,
)
    requires
        files.len() == starts.len(),
        scanned_lsn(files) is Some,
        forall|i: int| 0 <= i < files.len() ==> (#[trigger] files[i]).len() <= u64::MAX,
        forall|i: int, lsn: u64|
            0 <= i < files.len() ==> !(#[trigger] scan(files[i], lsn, 0) matches Scan::Read(
                _,
                _,
                true,
            )),
    ensures
        ({
            let found = recovering(starts, files);
            let log = Log::recovered(found->Some_0, max_segment_bytes, max_total_bytes);
            &&& found is Some
            &&& log.current_lsn == scanned_lsn(files)->Some_0
            &&& log.segments.len() == starts.len()
            &&& starts.len() > 0 ==> log.min_lsn == starts[0].0
            &&& starts.len() == 0 ==> log.min_lsn == 0
            &&& log.open is None
            &&& log.max_segment_bytes == max_segment_bytes
            &&& log.max_total_bytes == max_total_bytes
            &&& true_sizes(Disk { log, files })
            &&& forall|i: int|
                0 <= i < starts.len() ==> (#[trigger] log.segments[i]).0 == starts[i].0
        }),
{
    recovering_finds(starts, files);
}

/// A file that ends in a partly written record is cut to the records before it,
/// and that size is known of it; a whole one is left as it is.
pub proof fn torn_files_are_cut(found: Recovered, bytes: Seq<u8>)
    requires
        found.scanned < found.segments.len(),
        bytes.len() <= u64::MAX,
    ensures
        match (found.scanning(bytes), scan(bytes, found.current_lsn, 0)) {
            (Ok((next, cut)), Scan::Read(lsn, consumed, torn)) => {
                let n = found.scanned as int;
                &&& cut is Some <==> torn
                &&& cut matches Some(size) ==> size == consumed
                &&& next.current_lsn == lsn
                &&& next.scanned == n + 1
                &&& next.segments.len() == found.segments.len()
                &&& next.segments[n].0 == found.segments[n].0
                &&& !torn ==> next.segments[n].1 == bytes.len()
                &&& torn && consumed <= u64::MAX ==> next.segments[n].1 == consumed
                &&& forall|i: int|
                    0 <= i < found.segments.len() && i != n ==> #[trigger] next.segments[i]
                        == found.segments[i]
            },
            (Err(e), Scan::Refused(f)) => e == f,
            _ => false,
        },
{
}

// ---------------------------------------------------------------------------
// Segments in a directory
// ---------------------------------------------------------------------------

proof fn inserted_is_there(sorted: Seq<(u64, u64)>, x: (u64, u64), y: (u64, u64))
    ensures
        insert_segment(sorted, x).contains(y) <==> sorted.contains(y) || x == y,
        insert_segment(sorted, x).len() == sorted.len() + 1,
    decreases sorted.len(),
{
    let after = insert_segment(sorted, x);
    if sorted.len() > 0 && sorted.last().0 > x.0 {
        let fewer = sorted.drop_last();
        let mid = insert_segment(fewer, x);
        inserted_is_there(fewer, x, y);
        if after.contains(y) {
            let i = choose|i: int| 0 <= i < after.len() && after[i] == y;
            if i < mid.len() {
                assert(mid[i] == y);
                if fewer.contains(y) {
                    let k = choose|k: int| 0 <= k < fewer.len() && fewer[k] == y;
                    assert(sorted[k] == y);
                }
            } else {
                assert(sorted[sorted.len() - 1] == y);
            }
        }
        if sorted.contains(y) || x == y {
            if mid.contains(y) {
                let k = choose|k: int| 0 <= k < mid.len() && mid[k] == y;
                assert(after[k] == y);
            } else {
                let k = choose|k: int| 0 <= k < sorted.len() && sorted[k] == y;
                if k < fewer.len() {
                    assert(fewer[k] == y);
                }
                assert(after[after.len() - 1] == y);
            }
        }
    } else {
        if sorted.contains(y) {
            let k = choose|k: int| 0 <= k < sorted.len() && sorted[k] == y;
            assert(after[k] == y);
        }
        assert(after[sorted.len() as int] == x);
    }
}

/// Whether an entry of a directory is the segment of that LSN, with that size.
pub open spec fn is_segment(entry: (Seq<char>, u64), lsn: u64, size: u64) -> bool {
    (named_lsn(entry.0) matches Some(v) && v as u64 == lsn) && entry.1 == size
}

/// The segments of a directory are its entries whose names are those of
/// segments, each with the LSN of its name and its size, and no others.
pub proof fn segments_are_found_by_their_names(
    entries: Seq<(Seq<char>, u64)>,
    lsn: u64,
    size: u64,
)
    ensures
        segments_of(entries).contains((lsn, size)) <==> exists|i: int|
            0 <= i < entries.len() && is_segment(#[trigger] entries[i], lsn, size),
        segments_of(entries).len() <= entries.len(),
    decreases entries.len(),
{
    if entries.len() > 0 {
        let before = entries.drop_last();
        let last = entries.last();
        let n = entries.len() - 1;
        segments_are_found_by_their_names(before, lsn, size);
        if let Some(v) = named_lsn(last.0) {
            inserted_is_there(segments_of(before), (v as u64, last.1), (lsn, size));
        }
        if segments_of(entries).contains((lsn, size)) {
            if segments_of(before).contains((lsn, size)) {
                let i = choose|i: int|
                    0 <= i < before.len() && is_segment(#[trigger] before[i], lsn, size);
                assert(entries[i] == before[i]);
            } else {
                assert(entries[n] == last);
            }
        }
        if exists|i: int|
            0 <= i < entries.len() && is_segment(#[trigger] entries[i], lsn, size) {
            let i = choose|i: int|
                0 <= i < entries.len() && is_segment(#[trigger] entries[i], lsn, size);
            if i < n {
                assert(before[i] == entries[i]);
            }
        }
    }
}

/// The name of a segment's file is that of its first LSN alone: it is found by
/// it, and segments of different LSNs have different names.
pub proof fn segment_names_differ(a: u64, b: u64)
    requires
        segment_name(a) == segment_name(b),
    ensures
        a == b,
{
    segment_name_reads_back(a);
    segment_name_reads_back(b);
}

// ---------------------------------------------------------------------------
// The change stream
// ---------------------------------------------------------------------------

/// A replica is refused, as one that must clone anew, exactly where it is below
/// the oldest LSN that the log tells. Otherwise it reads all segments, from the
/// LSN that it has.
pub proof fn only_lagging_replicas_are_refused(log: Log, since: u64)
    ensures
        match opened(log, since) {
            Ok(reader) => since >= log.min_lsn && reader.since == since && reader.left
                == log.segments.len() && reader.rest.len() == 0 && !reader.failed,
            Err(f) => since < log.min_lsn && f.status == 409 && f.code == "BINLOG_LAG"@,
        },
{
}

/// The watermarks tell the LSN of the last transaction, the oldest LSN from
/// which a replica is served, and the schema's version.
pub proof fn watermarks_tell_of_the_log(log: Log, schema_version: i64)
    ensures
        watermarks(log, schema_version).current_lsn == log.current_lsn,
        watermarks(log, schema_version).schema_version == schema_version,
        opened(log, watermarks(log, schema_version).min_lsn) is Ok,
        watermarks(log, schema_version).min_lsn > 0 ==> opened(
            log,
            (watermarks(log, schema_version).min_lsn - 1) as u64,
        ) is Err,
{
}

/// What a failed read says: that the bytes ended, that a length did not, or what
/// the decoder said of the record.
pub proof fn read_failures_say_why(e: BinlogError, cause: Seq<char>, since: u64, min_lsn: u64)
    ensures
        e == BinlogError::UnexpectedEnd ==> e.text(cause) == "failed to fill whole buffer"@,
        e == BinlogError::VarintTooLong ==> e.text(cause) == "binlog: varint too long"@,
        e == BinlogError::Corrupt ==> e.text(cause) == cause,
        lag_message(since, min_lsn) == "requested LSN "@ + decimal(since as nat)
            + " is older than the oldest retained binlog record ("@ + decimal(min_lsn as nat)
            + "); the client must re-clone the database"@,
{
}

// ---------------------------------------------------------------------------
// Reading
// ---------------------------------------------------------------------------

/// What a reader still has to read: what is left of the segment at hand, and the
/// segments that follow it.
pub open spec fn unread(reader: Reader, files: Seq<Seq<u8>>) -> Result<Seq<Tx>, BinlogError> {
    match segment_txs(reader.rest, reader.since) {
        Ok(txs) => match log_txs(files, reader.since) {
            Ok(more) => Ok(txs + more),
            Err(e) => Err(e),
        },
        Err(e) => Err(e),
    }
}

proof fn log_from_the_front(file: Seq<u8>, files: Seq<Seq<u8>>, since: u64)
    ensures
        log_txs(seq![file] + files, since) == (match segment_txs(file, since) {
            Ok(txs) => match log_txs(files, since) {
                Ok(more) => Ok::<Seq<Tx>, BinlogError>(txs + more),
                Err(e) => Err(e),
            },
            Err(e) => Err(e),
        }),
    decreases files.len(),
{
    let all = seq![file] + files;
    if files.len() == 0 {
        assert(all.drop_last() =~= Seq::<Seq<u8>>::empty());
        assert(all.last() == file);
        assert(log_txs(all.drop_last(), since) == Ok::<Seq<Tx>, BinlogError>(seq![]));
        if let Ok(txs) = segment_txs(file, since) {
            assert(Seq::<Tx>::empty() + txs =~= txs);
            assert(txs + Seq::<Tx>::empty() =~= txs);
        }
    } else {
        log_from_the_front(file, files.drop_last(), since);
        assert(all.drop_last() =~= seq![file] + files.drop_last());
        assert(all.last() == files.last());
        if let Ok(txs) = segment_txs(file, since) {
            if let Ok(more) = log_txs(files.drop_last(), since) {
                if let Ok(last) = segment_txs(files.last(), since) {
                    assert((txs + more) + last =~= txs + (more + last));
                }
            }
        }
    }
}

/// A reader gives out all that it has to read, one transaction after the other
/// and in order: what it gives is the first of what was unread, and the rest is
/// still to come. It asks for a segment, or ends, only where nothing of the one
/// at hand is left, and fails only where what is unread cannot be read.
pub proof fn readers_give_out_everything(reader: Reader, files: Seq<Seq<u8>>)
    requires
        !reader.failed,
        reader.left == files.len(),
    ensures
        ({
            let (next, step) = reader.stepping();
            &&& next.since == reader.since
            &&& next.left == reader.left
            &&& match step {
                Stepped::Record(tx) => !next.failed && tx.lsn > reader.since && unread(
                    reader,
                    files,
                ) == (match unread(next, files) {
                    Ok(txs) => Ok::<Seq<Tx>, BinlogError>(seq![tx] + txs),
                    Err(e) => Err(e),
                }),
                Stepped::Segment => !next.failed && next.rest.len() == 0 && files.len() > 0
                    && unread(next, files) == unread(reader, files) && unread(
                    next.fed(files[0]),
                    files.drop_first(),
                ) == unread(reader, files),
                Stepped::End => files.len() == 0 && unread(reader, files) == Ok::<
                    Seq<Tx>,
                    BinlogError,
                >(seq![]),
                Stepped::Failed(e) => next.failed && unread(reader, files) == Err::<Seq<Tx>, _>(e),
                Stepped::Corrupt(_) => next.failed && unread(reader, files) == Err::<Seq<Tx>, _>(
                    BinlogError::Corrupt,
                ),
            }
        }),
        (Reader { failed: true, ..reader }).stepping().1 is End,
{
    let (next, step) = reader.stepping();
    let since = reader.since;
    next_is_first(reader.rest, since);
    next_is_above(reader.rest, since);
    assert(segment_txs(Seq::<u8>::empty(), since) == Ok::<Seq<Tx>, BinlogError>(seq![]));
    match step {
        Stepped::Record(tx) => {
            if let Ok(txs) = segment_txs(next.rest, since) {
                if let Ok(more) = log_txs(files, since) {
                    assert((seq![tx] + txs) + more =~= seq![tx] + (txs + more));
                }
            }
        },
        Stepped::Segment => {
            let rest = files.drop_first();
            assert(files =~= seq![files[0]] + rest);
            log_from_the_front(files[0], rest, since);
            if let Ok(more) = log_txs(files, since) {
                assert(Seq::<Tx>::empty() + more =~= more);
            }
        },
        Stepped::End => {
            assert(Seq::<Tx>::empty() + Seq::<Tx>::empty() =~= Seq::<Tx>::empty());
        },
        _ => {},
    }
}

proof fn next_is_above(bytes: Seq<u8>, since: u64)
    ensures
        next_tx(bytes, since) matches Next::Tx(tx, _) ==> tx.lsn > since,
    decreases bytes.len(),
{
    if let Frame::Record(body, n) = parse_frame(bytes) {
        if let Some(tx) = parse_tx(body) {
            if tx.lsn <= since && 0 < n <= bytes.len() {
                next_is_above(bytes.skip(n as int), since);
            }
        }
    }
}

/// The entries of a directory are seen by their names and sizes, in place.
pub proof fn entries_are_seen_in_place(entries: Seq<(String, u64)>, i: int)
    ensures
        entry_views(entries).len() == entries.len(),
        0 <= i < entries.len() ==> entry_views(entries)[i] == (entries[i].0@, entries[i].1),
{
}

} // verus!
