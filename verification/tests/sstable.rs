//! Tests of the table format.

use scry_index::lsm::sstable::reader::{find_block, SsTableReader};
use scry_index::lsm::sstable::writer::{Finished, SsTableWriter};
use scry_index::lsm::sstable::{FormatError, FOOTER_SIZE};

fn write_test_sstable(entries: &[(&[u8], &[u8])]) -> Vec<u8> {
    let mut writer = SsTableWriter::new();
    for (k, v) in entries {
        writer.add(k, v);
    }
    writer.finish().output
}

#[test]
fn write_empty_sstable() {
    let writer = SsTableWriter::new();
    let finished = writer.finish();
    assert_eq!(finished.entry_count, 0);

    // File should contain only the index block (empty) and footer.
    assert_eq!(finished.output.len(), FOOTER_SIZE);
}

#[test]
fn write_entries() {
    let mut writer = SsTableWriter::new();
    writer.add(b"aaa", b"111");
    writer.add(b"bbb", b"222");
    writer.add(b"ccc", b"333");
    let Finished {
        entry_count: count,
        min_key: min,
        max_key: max,
        ..
    } = writer.finish();

    assert_eq!(count, 3);
    assert_eq!(min, b"aaa");
    assert_eq!(max, b"ccc");
}

#[test]
fn roundtrip_point_lookup() {
    let file = write_test_sstable(&[
        (b"alpha", b"1"),
        (b"bravo", b"2"),
        (b"charlie", b"3"),
        (b"delta", b"4"),
    ]);

    let reader = SsTableReader::open(&file).unwrap();
    assert_eq!(reader.get(b"alpha").unwrap(), Some(b"1".to_vec()));
    assert_eq!(reader.get(b"charlie").unwrap(), Some(b"3".to_vec()));
    assert_eq!(reader.get(b"delta").unwrap(), Some(b"4".to_vec()));
    assert_eq!(reader.get(b"missing").unwrap(), None);
    assert_eq!(reader.get(b"aaa").unwrap(), None); // Before all keys.
    assert_eq!(reader.get(b"zzz").unwrap(), None); // After all keys.
}

#[test]
fn roundtrip_iteration() {
    let input: Vec<(&[u8], &[u8])> =
        vec![(b"a", b"1"), (b"b", b"2"), (b"c", b"3"), (b"d", b"4")];
    let file = write_test_sstable(&input);

    let reader = SsTableReader::open(&file).unwrap();
    let entries = reader.read_all().unwrap();
    let expected: Vec<(Vec<u8>, Vec<u8>)> = input
        .iter()
        .map(|(k, v)| (k.to_vec(), v.to_vec()))
        .collect();
    assert_eq!(entries, expected);
}

#[test]
fn empty_sstable() {
    let file = write_test_sstable(&[]);

    let reader = SsTableReader::open(&file).unwrap();
    assert_eq!(reader.entry_count(), 0);
    assert_eq!(reader.get(b"anything").unwrap(), None);
    assert!(reader.read_all().unwrap().is_empty());
}

#[test]
fn multi_block_sstable() {
    // Use tiny blocks to force multiple data blocks.
    let mut writer = SsTableWriter::with_block_size(32);
    for i in 0u32..100 {
        let key = format!("key-{i:05}");
        let val = format!("val-{i:05}");
        writer.add(key.as_bytes(), val.as_bytes());
    }
    let file = writer.finish().output;

    let reader = SsTableReader::open(&file).unwrap();
    assert_eq!(reader.entry_count(), 100);

    // Spot-check lookups.
    assert_eq!(
        reader.get(b"key-00000").unwrap(),
        Some(b"val-00000".to_vec())
    );
    assert_eq!(
        reader.get(b"key-00050").unwrap(),
        Some(b"val-00050".to_vec())
    );
    assert_eq!(
        reader.get(b"key-00099").unwrap(),
        Some(b"val-00099".to_vec())
    );
    assert_eq!(reader.get(b"key-00100").unwrap(), None);

    // Full iteration.
    let entries = reader.read_all().unwrap();
    assert_eq!(entries.len(), 100);
    assert_eq!(entries[0].0, b"key-00000");
    assert_eq!(entries[99].0, b"key-00099");
}

#[test]
fn table_bytes_are_exact() {
    let file = write_test_sstable(&[(b"k", b"vw")]);
    assert_eq!(
        file,
        vec![
            1, 0, 0, 0, b'k', 2, 0, 0, 0, b'v', b'w', // data block
            1, 0, 0, 0, b'k', 0, 0, 0, 0, 0, 0, 0, 0, 11, 0, 0, 0, 0, 0, 0, 0, // index
            11, 0, 0, 0, 0, 0, 0, 0, 1, 0, 0, 0, 0, 0, 0, 0, 0x4c, 0x54, 0x53, 0x53, // footer
        ]
    );
}

#[test]
fn output_can_be_taken_in_parts() {
    let mut whole = SsTableWriter::with_block_size(16);
    let mut parts = SsTableWriter::with_block_size(16);
    let mut file = Vec::new();
    for i in 0u8..20 {
        whole.add(&[i], b"0123456789");
        parts.add(&[i], b"0123456789");
        file.extend(parts.take_output());
    }
    file.extend(parts.finish().output);
    assert_eq!(file, whole.finish().output);
}

#[test]
fn full_blocks_are_taken_once() {
    let mut writer = SsTableWriter::with_block_size(20);
    writer.add(b"a", b"1");
    assert!(writer.take_output().is_empty());
    writer.add(b"b", b"2");
    assert_eq!(
        writer.take_output(),
        [1, 0, 0, 0, b'a', 1, 0, 0, 0, b'1', 1, 0, 0, 0, b'b', 1, 0, 0, 0, b'2']
    );
    writer.add(b"c", b"3");
    assert!(writer.take_output().is_empty());
}

#[test]
fn scan_yields_all_entries() {
    let mut writer = SsTableWriter::with_block_size(32);
    for i in 0u8..50 {
        writer.add(&[i], &[i, i]);
    }
    let file = writer.finish().output;
    let reader = SsTableReader::open(&file).unwrap();
    let mut scan = reader.scan();
    for i in 0u8..50 {
        assert_eq!(scan.next_entry().unwrap(), Some((vec![i], vec![i, i])));
    }
    assert_eq!(scan.next_entry().unwrap(), None);
    assert_eq!(scan.next_entry().unwrap(), None);
}

#[test]
fn damaged_tables_are_refused() {
    match SsTableReader::open(&[0u8; 19]) {
        Err(e) => {
            assert_eq!(e, FormatError::TooSmall);
            assert_eq!(e.to_string(), "file too small to be an SSTable");
        }
        Ok(_) => panic!("a short file was opened"),
    }

    let mut file = write_test_sstable(&[(b"k", b"v")]);
    let n = file.len();
    file[n - 1] = 0;
    match SsTableReader::open(&file) {
        Err(e) => {
            assert_eq!(e, FormatError::BadMagic(0x0053_544c));
            assert_eq!(e.to_string(), "bad SSTable magic: 0x53544c, expected 0x5353544c");
        }
        Ok(_) => panic!("a file with a bad magic number was opened"),
    }

    // The length of the only key runs past the end of its block.
    let mut file = write_test_sstable(&[(b"k", b"v")]);
    file[0] = 0xff;
    let reader = SsTableReader::open(&file).unwrap();
    assert_eq!(reader.get(b"k"), Err(FormatError::TruncatedEntry));
    assert_eq!(reader.read_all(), Err(FormatError::TruncatedEntry));
    assert_eq!(FormatError::TruncatedEntry.to_string(), "truncated entry in data block");

    // The only block runs past the end of the file.
    let mut file = write_test_sstable(&[(b"k", b"v")]);
    file[10 + 13 + 1] = 0xff;
    let reader = SsTableReader::open(&file).unwrap();
    assert_eq!(reader.get(b"k"), Err(FormatError::UnexpectedEnd));
    assert_eq!(FormatError::UnexpectedEnd.to_string(), "failed to fill whole buffer");
}

#[test]
fn find_block_picks_the_last_block_at_or_before_the_key() {
    let mut writer = SsTableWriter::with_block_size(1);
    for k in [b"b", b"d", b"f"] {
        writer.add(k, b"");
    }
    let file = writer.finish().output;
    // Three blocks of nine bytes each.
    let index = scry_index::lsm::sstable::reader::parse_index(&file[27..file.len() - FOOTER_SIZE]);
    assert_eq!(index.len(), 3);
    assert_eq!(find_block(&index, b"a"), None);
    assert_eq!(find_block(&index, b"b"), Some(0));
    assert_eq!(find_block(&index, b"c"), Some(0));
    assert_eq!(find_block(&index, b"d"), Some(1));
    assert_eq!(find_block(&index, b"z"), Some(2));
    assert_eq!(find_block(&Vec::new(), b"z"), None);
}

#[test]
fn index_behind_the_end_is_an_error() {
    let mut file = 1u64.to_le_bytes().to_vec();
    file.extend(0u64.to_le_bytes());
    file.extend(0x5353_544Cu32.to_le_bytes());
    match SsTableReader::open(&file) {
        Err(e) => {
            assert_eq!(e, FormatError::BadIndexOffset(1));
            assert_eq!(e.to_string(), "index offset out of range: 1");
        }
        Ok(_) => panic!("a file with a bad index offset was opened"),
    }
}
