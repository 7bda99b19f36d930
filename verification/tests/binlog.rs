use prost::encoding::{bytes, double, int32, int64, sint64, string, uint64};
use replite::binlog::codec::DecodeError;
use replite::binlog::segment::{
    lsn_to_name, name_to_lsn, read_varint, scan_segment, varint_len, write_varint, BinlogError,
    BinlogIter, SegmentScan, Step,
};
use replite::binlog::value;
use replite::binlog::{
    list_segments, Append, Binlog, DdlEvent, Op, Recovery, RowEvent, SchemaCache, TableInfo,
    Transaction, Value,
};

/// Segment files in memory, with the log that knows them.
struct Disk {
    log: Binlog,
    starts: Vec<u64>,
    files: Vec<Vec<u8>>,
}

impl Disk {
    fn empty(max_segment_bytes: u64, max_total_bytes: u64) -> Disk {
        let log = Binlog::open(Recovery::new(vec![]), max_segment_bytes, max_total_bytes);
        Disk { log, starts: vec![], files: vec![] }
    }

    fn append(&mut self, tx: Transaction) -> u64 {
        match self.log.append(tx) {
            Append::Unchanged(lsn) => lsn,
            Append::Write { lsn, rotate, record } => {
                if rotate {
                    self.log.close_segment();
                    let start = name_to_lsn(&self.log.next_segment()).unwrap();
                    self.log.rotate(0);
                    if self.starts.last() != Some(&start) {
                        self.starts.push(start);
                        self.files.push(vec![]);
                    }
                }
                let n = record.len() as u64;
                self.files.last_mut().unwrap().extend(record);
                self.log.committed(n);
                while let Some(start) = self.log.gc_next() {
                    assert_eq!(self.starts.remove(0), start);
                    self.files.remove(0);
                    self.log.gc_removed();
                }
                lsn
            }
        }
    }

    fn read_since(&self, since: u64) -> Vec<Transaction> {
        self.log.read_since(&self.files, since).unwrap()
    }

    /// Opens the log again from the files; cuts torn records off.
    fn reopen(mut self, max_segment_bytes: u64, max_total_bytes: u64) -> Disk {
        let mut entries = vec![("notes.txt".to_string(), 3)];
        for (start, file) in self.starts.iter().zip(&self.files).rev() {
            entries.push((lsn_to_name(*start), file.len() as u64));
        }
        let mut recovery = Recovery::new(list_segments(&entries));
        let mut i = 0;
        while let Some(start) = recovery.pending() {
            assert_eq!(start, self.starts[i]);
            if let Some(size) = recovery.scan_state(&self.files[i]).unwrap() {
                self.files[i].truncate(size as usize);
            }
            i += 1;
        }
        self.log = Binlog::open(recovery, max_segment_bytes, max_total_bytes);
        self
    }
}

fn tx(lsn: u64) -> Transaction {
    Transaction {
        lsn,
        commit_ts_ms: 0,
        rows: vec![RowEvent {
            table: "t".into(),
            op: Op::Insert.to_i32(),
            pk_columns: vec!["id".into()],
            pk_values: vec![Value::integer(1)],
            columns: vec!["id".into(), "v".into()],
            values: vec![Value::integer(1), Value::text("x")],
        }],
        ddl: vec![],
    }
}

#[test]
fn append_read_roundtrip() {
    let mut b = Disk::empty(1024, 10_000);
    assert_eq!(b.append(tx(0)), 1);
    assert_eq!(b.append(tx(0)), 2);
    assert_eq!(b.log.current_lsn(), 2);
    let txs = b.read_since(0);
    assert_eq!(txs.len(), 2);
    assert_eq!(txs[0].lsn, 1);
    assert_eq!(txs[1].lsn, 2);
    // Reopen and recover
    let b2 = b.reopen(1024, 10_000);
    assert_eq!(b2.log.current_lsn(), 2);
}

#[test]
fn rotation_and_min_lsn() {
    let mut b = Disk::empty(200, 10_000);
    for _ in 0..50 {
        b.append(tx(0));
    }
    assert!(b.log.current_lsn() >= 50);
    let txs = b.read_since(0);
    assert_eq!(txs.len(), 50);
}

#[test]
fn value_roundtrip() {
    let v = Value { value: Some(value::Value::Blob(vec![1, 2, 3])) };
    let bytes = v.encode_to_vec();
    let v2 = Value::decode(&bytes).unwrap();
    assert_eq!(v, v2);
}

#[test]
fn every_value_reads_back() {
    let values = [
        Value { value: None },
        Value::null(),
        Value::integer(0),
        Value::integer(-1),
        Value::integer(i64::MIN),
        Value::integer(i64::MAX),
        Value::float(1.5f64.to_bits()),
        Value::float((-0.0f64).to_bits()),
        Value::text(""),
        Value::text("h\u{e9}llo \u{1f980}"),
        Value::blob(vec![]),
        Value::blob(vec![0, 255, 128]),
    ];
    for v in values {
        assert_eq!(Value::decode(&v.encode_to_vec()), Ok(v.clone()));
    }
}

#[test]
fn value_bytes_are_protobuf() {
    assert_eq!(Value::null().encode_to_vec(), vec![0x0a, 0x00]);
    assert_eq!(Value::integer(-2).encode_to_vec(), vec![0x10, 0x03]);
    assert_eq!(Value::integer(0).encode_to_vec(), vec![0x10, 0x00]);
    assert_eq!(
        Value::float(1.0f64.to_bits()).encode_to_vec(),
        vec![0x19, 0, 0, 0, 0, 0, 0, 0xf0, 0x3f]
    );
    assert_eq!(Value::text("ab").encode_to_vec(), vec![0x22, 2, b'a', b'b']);
    assert_eq!(Value::blob(vec![9]).encode_to_vec(), vec![0x2a, 1, 9]);
    assert_eq!(Value { value: None }.encode_to_vec(), Vec::<u8>::new());
}

fn len_field(tag: u32, payload: Vec<u8>, out: &mut Vec<u8>) {
    bytes::encode(tag, &payload, out);
}

fn value_bytes(v: &Value) -> Vec<u8> {
    let mut out = vec![];
    match &v.value {
        None => {}
        Some(value::Value::Null(_)) => len_field(1, vec![], &mut out),
        Some(value::Value::Integer(i)) => sint64::encode(2, i, &mut out),
        Some(value::Value::Float(b)) => double::encode(3, &f64::from_bits(*b), &mut out),
        Some(value::Value::Text(s)) => string::encode(4, s, &mut out),
        Some(value::Value::Blob(b)) => bytes::encode(5, b, &mut out),
        Some(value::Value::RawText(b)) => bytes::encode(6, b, &mut out),
    }
    out
}

/// A transaction written with prost's own field functions.
fn prost_bytes(t: &Transaction) -> Vec<u8> {
    let mut out = vec![];
    if t.lsn != 0 {
        uint64::encode(1, &t.lsn, &mut out);
    }
    if t.commit_ts_ms != 0 {
        int64::encode(2, &t.commit_ts_ms, &mut out);
    }
    for r in &t.rows {
        let mut row = vec![];
        if !r.table.is_empty() {
            string::encode(1, &r.table, &mut row);
        }
        if r.op != 0 {
            int32::encode(2, &r.op, &mut row);
        }
        string::encode_repeated(3, &r.pk_columns, &mut row);
        for v in &r.pk_values {
            len_field(4, value_bytes(v), &mut row);
        }
        string::encode_repeated(5, &r.columns, &mut row);
        for v in &r.values {
            len_field(6, value_bytes(v), &mut row);
        }
        len_field(3, row, &mut out);
    }
    for d in &t.ddl {
        let mut ddl = vec![];
        string::encode_repeated(1, &d.statements, &mut ddl);
        len_field(4, ddl, &mut out);
    }
    out
}

fn sample() -> Transaction {
    Transaction {
        lsn: 300,
        commit_ts_ms: -5,
        rows: vec![
            RowEvent {
                table: "t\u{e9}".into(),
                op: Op::Delete.to_i32(),
                pk_columns: vec!["a".into(), "".into()],
                pk_values: vec![Value::integer(-300), Value::null()],
                columns: vec![],
                values: vec![],
            },
            RowEvent {
                table: "".into(),
                op: -7,
                pk_columns: vec![],
                pk_values: vec![],
                columns: vec!["x".into()],
                values: vec![Value::float(2.5f64.to_bits()), Value { value: None }],
            },
        ],
        ddl: vec![
            DdlEvent { statements: vec!["CREATE TABLE t (a)".into(), "".into()] },
            DdlEvent { statements: vec![] },
        ],
    }
}

#[test]
fn transaction_bytes_match_prost() {
    let t = sample();
    assert_eq!(t.encode_to_vec(), prost_bytes(&t));
    let empty = Transaction { lsn: 0, commit_ts_ms: 0, rows: vec![], ddl: vec![] };
    assert_eq!(empty.encode_to_vec(), Vec::<u8>::new());
}

#[test]
fn transaction_reads_back() {
    let t = sample();
    assert_eq!(Transaction::decode(&t.encode_to_vec()), Ok(sample()));
}

#[test]
fn unknown_fields_are_skipped() {
    let mut bytes = sample().encode_to_vec();
    // field 9: a number, a double, bytes, a 32-bit number and a group
    bytes.extend([0x48, 0x96, 0x01]);
    bytes.extend([0x49, 1, 2, 3, 4, 5, 6, 7, 8]);
    bytes.extend([0x4a, 2, 0xff, 0xff]);
    bytes.extend([0x4d, 1, 2, 3, 4]);
    bytes.extend([0x4b, 0x50, 0x07, 0x4c]);
    assert_eq!(Transaction::decode(&bytes), Ok(sample()));
}

#[test]
fn malformed_messages_are_refused() {
    let bad: [&[u8]; 9] = [
        &[0x08],                                  // a number without its bytes
        &[0x0a, 0x01, 0x00],                      // the LSN as bytes
        &[0x1a, 0x05, 0x00],                      // a row that is cut short
        &[0x1a, 0x02, 0x0a, 0x05],                // a row with a field cut short
        &[0x1a, 0x03, 0x0a, 0x01, 0xff],          // a table that is not UTF-8
        &[0x4b, 0x50, 0x07],                      // a group without its end
        &[0x4c],                                  // an end without its group
        &[0x00, 0x01],                            // field number 0
        &[0x08, 0xff, 0xff, 0xff, 0xff, 0xff, 0xff, 0xff, 0xff, 0xff, 0x02],
    ];
    for bytes in bad {
        assert_eq!(Transaction::decode(bytes), Err(DecodeError {}), "{bytes:?}");
    }
}

#[test]
fn varints_have_their_length() {
    let cases: [(u64, usize); 7] =
        [(0, 1), (127, 1), (128, 2), (16383, 2), (16384, 3), (u64::MAX / 2, 9), (u64::MAX, 10)];
    for (v, n) in cases {
        let mut buf = vec![];
        write_varint(&mut buf, v);
        assert_eq!(buf.len(), n);
        assert_eq!(varint_len(v), n);
        assert_eq!(read_varint(&buf, 0), Ok(Some((v, n))));
    }
    let mut buf = vec![];
    write_varint(&mut buf, 300);
    assert_eq!(buf, vec![0xac, 0x02]);
}

#[test]
fn lengths_that_cannot_be_read() {
    assert_eq!(read_varint(&[], 0), Ok(None));
    assert_eq!(read_varint(&[0x80], 0), Err(BinlogError::UnexpectedEnd));
    assert_eq!(read_varint(&[0x80; 10], 0), Err(BinlogError::VarintTooLong));
    // bits past the 64th are dropped
    let mut long = vec![0x80; 9];
    long.push(0x02);
    assert_eq!(read_varint(&long, 0), Ok(Some((0, 10))));
    assert_eq!(BinlogError::VarintTooLong.message("x"), "binlog: varint too long");
    assert_eq!(BinlogError::UnexpectedEnd.message("x"), "failed to fill whole buffer");
    let cause = "failed to decode Protobuf message: Transaction.lsn: invalid varint";
    assert_eq!(BinlogError::Corrupt.message(cause), cause);
}

#[test]
fn segment_names_say_their_lsn() {
    assert_eq!(lsn_to_name(1), "0000000001.seg");
    assert_eq!(lsn_to_name(12345678901), "12345678901.seg");
    for lsn in [0, 1, 99, 9_999_999_999, u64::MAX] {
        assert_eq!(name_to_lsn(&lsn_to_name(lsn)), Some(lsn));
    }
    assert_eq!(name_to_lsn("+7.seg"), Some(7));
    for name in ["", ".seg", "x.seg", "1.se", "1seg", "-1.seg", "18446744073709551616.seg"] {
        assert_eq!(name_to_lsn(name), None, "{name}");
    }
}

#[test]
fn segments_are_listed_by_lsn() {
    let entries = vec![
        ("0000000030.seg".to_string(), 3),
        ("readme".to_string(), 9),
        ("0000000001.seg".to_string(), 1),
        ("0000000020.seg".to_string(), 2),
    ];
    assert_eq!(list_segments(&entries), vec![(1, 1), (20, 2), (30, 3)]);
}

#[test]
fn empty_transactions_take_no_lsn() {
    let mut b = Disk::empty(1024, 10_000);
    let nothing = || Transaction { lsn: 0, commit_ts_ms: 7, rows: vec![], ddl: vec![] };
    assert_eq!(b.append(nothing()), 0);
    assert_eq!(b.append(tx(0)), 1);
    assert_eq!(b.append(nothing()), 1);
    assert_eq!(b.append(tx(0)), 2);
    assert_eq!(b.files.len(), 1);
}

#[test]
fn torn_records_are_cut_off() {
    for cut in 1..30 {
        let mut b = Disk::empty(100_000, 1_000_000);
        b.append(tx(0));
        b.append(tx(0));
        let whole = b.files[0].len();
        b.append(tx(0));
        let end = b.files[0].len();
        b.files[0].truncate(end - cut);
        let b = b.reopen(100_000, 1_000_000);
        assert_eq!(b.log.current_lsn(), 2);
        assert_eq!(b.files[0].len(), whole);
        assert_eq!(b.read_since(0).len(), 2);
    }
}

#[test]
fn corrupt_records_are_refused() {
    assert_eq!(scan_segment(&[2, 0x08, 0x80], 0), Err(BinlogError::Corrupt));
    // a length beyond the segment's bytes is a torn record, however long
    assert_eq!(
        scan_segment(&[0x81, 0x80, 0x80, 0x20], 0),
        Ok(SegmentScan { lsn: 0, consumed: 0, torn: true })
    );
    assert_eq!(
        scan_segment(&[0x80, 0x80, 0x80, 0x20], 0),
        Ok(SegmentScan { lsn: 0, consumed: 0, torn: true })
    );
    assert_eq!(scan_segment(&[], 9), Ok(SegmentScan { lsn: 9, consumed: 0, torn: false }));
    assert_eq!(
        scan_segment(&[2, 0x08, 5, 2, 0x08, 4], 0),
        Ok(SegmentScan { lsn: 5, consumed: 6, torn: false })
    );
}

#[test]
fn a_log_goes_on_after_reopening() {
    let mut b = Disk::empty(100, 1_000_000);
    for _ in 0..7 {
        b.append(tx(0));
    }
    let segments = b.files.len();
    assert!(segments > 1);
    let mut b = b.reopen(100, 1_000_000);
    assert_eq!(b.log.current_lsn(), 7);
    assert_eq!(b.log.min_lsn(), 1);
    assert_eq!(b.append(tx(0)), 8);
    assert_eq!(b.files.len(), segments + 1);
    let lsns: Vec<u64> = b.read_since(3).iter().map(|t| t.lsn).collect();
    assert_eq!(lsns, vec![4, 5, 6, 7, 8]);
}

#[test]
fn old_segments_are_removed() {
    let mut b = Disk::empty(80, 150);
    for _ in 0..20 {
        b.append(tx(0));
    }
    assert_eq!(b.log.current_lsn(), 20);
    let min = b.log.min_lsn();
    assert!(min > 1);
    assert_eq!(b.starts[0], min);
    let names = b.log.segment_names();
    assert_eq!(names.len(), b.starts.len());
    assert_eq!(names[0], lsn_to_name(min));
    // everything from the oldest retained record on is still there
    let lsns: Vec<u64> = b.read_since(min - 1).iter().map(|t| t.lsn).collect();
    assert_eq!(lsns, (min..=20).collect::<Vec<u64>>());
}

#[test]
fn a_segment_that_is_known_is_not_listed_twice() {
    let mut recovery = Recovery::new(vec![(1, 0)]);
    assert_eq!(recovery.scan_state(&[]), Ok(None));
    let mut log = Binlog::open(recovery, 1024, 10_000);
    assert_eq!(log.next_segment(), "0000000001.seg");
    log.rotate(0);
    assert_eq!(log.segment_names(), vec!["0000000001.seg"]);
}

#[test]
fn a_failed_write_takes_no_lsn() {
    let mut b = Disk::empty(1024, 10_000);
    b.append(tx(0));
    let Append::Write { lsn, rotate, .. } = b.log.append(tx(0)) else { unreachable!() };
    assert_eq!((lsn, rotate), (2, false));
    b.log.write_failed(2000);
    assert_eq!(b.log.current_lsn(), 1);
    // the segment has grown over its limit
    let Append::Write { lsn, rotate, .. } = b.log.append(tx(0)) else { unreachable!() };
    assert_eq!((lsn, rotate), (2, true));
}

#[test]
fn a_reader_asks_for_segments_and_stops_at_a_failure() {
    let mut b = Disk::empty(40, 1_000_000);
    for _ in 0..4 {
        b.append(tx(0));
    }
    assert_eq!(b.files.len(), 4);
    b.files[2] = vec![0x80];
    let mut reader = b.log.iter_since(1);
    let mut next = 0;
    let mut seen = vec![];
    let failed = loop {
        match reader.next() {
            Step::Segment => {
                reader.feed(b.files[next].clone());
                next += 1;
            }
            Step::Record(t) => seen.push(t.lsn),
            Step::Failed(e) => break e,
            Step::Corrupt(_) | Step::End => unreachable!(),
        }
    };
    assert_eq!(seen, vec![2]);
    assert_eq!(failed, BinlogError::UnexpectedEnd);
    assert!(matches!(reader.next(), Step::End));
    assert_eq!(b.log.read_since(&b.files, 0), Err(BinlogError::UnexpectedEnd));
}

#[test]
fn a_reader_hands_out_the_corrupt_record() {
    let mut reader = BinlogIter::new(1, 0);
    assert!(matches!(reader.next(), Step::Segment));
    reader.feed(vec![2, 0x08, 0x01, 3, 0x10, 0x80, 0x80]);
    match reader.next() {
        Step::Record(t) => assert_eq!(t.lsn, 1),
        _ => panic!(),
    }
    match reader.next() {
        Step::Corrupt(body) => assert_eq!(body, vec![0x10, 0x80, 0x80]),
        _ => panic!(),
    }
    assert!(matches!(reader.next(), Step::End));
}

#[test]
fn schemas_are_kept_per_version() {
    let mut cache = SchemaCache::with_schema_version(1);
    let fetched = |n: i64| TableInfo {
        root: n,
        columns: vec!["id".to_string(), "v".to_string()],
        is_pk: vec![true, false],
        generated: vec![false, false],
    };
    let got = cache.get(1, "t", |t| {
        assert_eq!(t, "t");
        fetched(2)
    });
    assert_eq!(got, fetched(2));
    assert_eq!(cache.get(1, "t", |_| unreachable!()), fetched(2));
    cache.refresh(1);
    assert_eq!(cache.get(1, "t", |_| unreachable!()), fetched(2));
    // another version forgets
    assert_eq!(cache.get(2, "t", |_| fetched(3)), fetched(3));
    cache.clear();
    assert_eq!(cache.get(2, "t", |_| fetched(4)), fetched(4));
    assert!(cache.lookup("u").is_none());
}

#[test]
fn opcodes_have_numbers() {
    for op in [Op::Insert, Op::Update, Op::Delete] {
        assert_eq!(Op::from_i32(op.to_i32()), Some(op));
    }
    assert_eq!(Op::Delete.to_i32(), 2);
    assert_eq!(Op::from_i32(3), None);
    assert_eq!(Op::from_i32(-1), None);
}

#[test]
fn texts_that_are_not_utf8_are_stored() {
    let v = Value::raw_text(vec![0xff, 0xfe]);
    assert_eq!(v.encode_to_vec(), value_bytes(&v));
    assert_eq!(Value::decode(&v.encode_to_vec()), Ok(v));
}

#[test]
fn accepted_replicas_miss_nothing() {
    let mut b = Disk::empty(120, 300);
    for n in 1..=30 {
        b.append(tx(0));
        for since in b.log.min_lsn()..=n {
            let lsns: Vec<u64> = b.read_since(since).iter().map(|t| t.lsn).collect();
            assert_eq!(lsns, (since + 1..=n).collect::<Vec<u64>>());
        }
    }
    assert!(b.log.min_lsn() > 1);
    let b = b.reopen(120, 300);
    assert_eq!(b.log.current_lsn(), 30);
    let empty = Disk::empty(120, 300).reopen(120, 300);
    assert_eq!(empty.log.current_lsn(), 0);
}

#[test]
fn large_records_are_reopened() {
    let mut b = Disk::empty(1024, 10_000);
    let mut big = tx(0);
    big.rows[0].values[1] = Value::blob(vec![0; 70 * 1024 * 1024]);
    assert_eq!(b.append(big), 1);
    let mut b = b.reopen(1024, 10_000);
    assert_eq!(b.log.current_lsn(), 1);
    assert_eq!(b.append(tx(0)), 2);
}

/// Groups of an unknown field, one within the other.
fn groups(depth: usize) -> Vec<u8> {
    [vec![0x7b; depth], vec![0x7c; depth]].concat()
}

#[test]
fn groups_and_messages_share_a_limit() {
    assert!(Transaction::decode(&groups(100)).is_ok());
    assert!(Transaction::decode(&groups(101)).is_err());
    let within = |tag: u32, payload: Vec<u8>| {
        let mut out = vec![];
        len_field(tag, payload, &mut out);
        out
    };
    assert!(Transaction::decode(&within(3, groups(99))).is_ok());
    assert!(Transaction::decode(&within(3, groups(100))).is_err());
    assert!(Transaction::decode(&within(4, groups(99))).is_ok());
    assert!(Transaction::decode(&within(4, groups(100))).is_err());
    let value = |depth: usize| within(3, within(6, groups(depth)));
    assert!(Transaction::decode(&value(98)).is_ok());
    assert!(Transaction::decode(&value(99)).is_err());
    let null = |depth: usize| within(3, within(6, within(1, groups(depth))));
    assert!(Transaction::decode(&null(97)).is_ok());
    assert!(Transaction::decode(&null(98)).is_err());
    assert!(Value::decode(&groups(100)).is_ok());
    assert!(RowEvent::decode(&groups(101)).is_err());
}
