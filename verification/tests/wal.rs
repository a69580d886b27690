//! Tests of the write-ahead log.

use scry_index::lsm::error::Error;
use scry_index::lsm::wal::{Wal, WalRecord, RECORD_PUT};

#[test]
fn roundtrip_put_and_delete() {
    let mut wal = Wal::open();
    wal.append_put(b"key1", b"value1");
    wal.append_put(b"key2", b"value2");
    wal.append_delete(b"key1");
    let log = wal.sync();

    let records = Wal::recover(&log).unwrap();
    assert_eq!(records.len(), 3);
    assert_eq!(
        records[0],
        WalRecord::Put {
            key: b"key1".to_vec(),
            value: b"value1".to_vec()
        }
    );
    assert_eq!(
        records[1],
        WalRecord::Put {
            key: b"key2".to_vec(),
            value: b"value2".to_vec()
        }
    );
    assert_eq!(
        records[2],
        WalRecord::Delete {
            key: b"key1".to_vec()
        }
    );
}

#[test]
fn truncate_clears_wal() {
    let mut wal = Wal::open();
    wal.append_put(b"key", b"value");
    wal.truncate();

    let records = Wal::recover(&wal.sync()).unwrap();
    assert!(records.is_empty());
}

#[test]
fn recover_nonexistent_returns_empty() {
    let records = Wal::recover(&[]).unwrap();
    assert!(records.is_empty());
}

#[test]
fn incomplete_record_is_skipped() {
    // A complete record followed by a partial one.
    let mut wal = Wal::open();
    wal.append_put(b"good", b"data");
    let mut log = wal.sync();
    log.extend_from_slice(&[RECORD_PUT, 0xFF, 0xFF]);

    let records = Wal::recover(&log).unwrap();
    assert_eq!(records.len(), 1);
    assert_eq!(
        records[0],
        WalRecord::Put {
            key: b"good".to_vec(),
            value: b"data".to_vec()
        }
    );
}

#[test]
fn log_bytes_are_exact() {
    let mut wal = Wal::open();
    wal.append_put(b"ab", b"c");
    wal.append_delete(b"x");
    assert_eq!(
        wal.sync(),
        vec![
            1, 2, 0, 0, 0, b'a', b'b', 1, 0, 0, 0, b'c', // put
            2, 1, 0, 0, 0, b'x', 0, 0, 0, 0, // delete
        ]
    );
    // What was handed out is not handed out again.
    assert_eq!(wal.sync(), Vec::<u8>::new());
}

#[test]
fn every_cut_of_a_log_keeps_the_complete_records() {
    let mut wal = Wal::open();
    wal.append_put(b"k1", b"v1");
    let first = wal.sync();
    wal.append_put(b"k2", b"v2");
    let second = wal.sync();
    let mut log = first.clone();
    log.extend_from_slice(&second);
    for n in 0..log.len() {
        let expected = if n < first.len() { 0 } else { 1 };
        assert_eq!(Wal::recover(&log[..n]).unwrap().len(), expected, "cut at {n}");
    }
    assert_eq!(Wal::recover(&log).unwrap().len(), 2);
}

#[test]
fn unknown_record_type_is_corruption() {
    let log = [0x2a, 0, 0, 0, 0, 0, 0, 0, 0];
    match Wal::recover(&log) {
        Err(Error::Corruption(text)) => assert_eq!(text, "unknown WAL record type: 0x2a"),
        other => panic!("unexpected: {:?}", other.map(|r| r.len()).ok()),
    }
    // An incomplete record of an unknown type is skipped.
    assert!(Wal::recover(&log[..8]).unwrap().is_empty());
}

#[test]
fn replay_tells_where_complete_records_end() {
    let mut wal = Wal::open();
    wal.append_put(b"good", b"data");
    let mut log = wal.sync();
    let complete = log.len();
    log.extend_from_slice(&[RECORD_PUT, 0xFF, 0xFF]);
    let recovered = Wal::replay(&log).unwrap();
    assert_eq!(recovered.records.len(), 1);
    assert_eq!(recovered.valid_len, complete);

    log.truncate(recovered.valid_len);
    wal.append_delete(b"good");
    log.extend(wal.sync());
    assert_eq!(Wal::recover(&log).unwrap().len(), 2);
}
