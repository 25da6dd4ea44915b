use quartz_core::wal::{decode_frame, encode_frame, Frame, WriteAheadLog};
use quartz_core::wal::{OP_CHECKPOINT, OP_DELETE, OP_INSERT};

#[test]
fn roundtrip_append_replay() {
    let mut wal = WriteAheadLog::new(0);
    wal.append(OP_INSERT, 42, b"hello");
    wal.append(OP_INSERT, 43, b"world");
    let file = wal.take_pending();

    let entries = WriteAheadLog::replay(&file);
    assert_eq!(entries.len(), 2);
    assert_eq!(entries[0].0, OP_INSERT);
    assert_eq!(entries[0].1, 42);
    assert_eq!(entries[0].2, b"hello");
    assert_eq!(entries[1].1, 43);
    assert_eq!(entries[1].2, b"world");
}

#[test]
fn checkpoint_truncates_replay() {
    let mut wal = WriteAheadLog::new(0);
    wal.append(OP_INSERT, 1, b"before checkpoint");
    wal.checkpoint(99);
    wal.append(OP_INSERT, 2, b"after checkpoint");
    let file = wal.take_pending();

    let entries = WriteAheadLog::replay(&file);
    // Only entries AFTER the last checkpoint come back
    assert_eq!(entries.len(), 1);
    assert_eq!(entries[0].1, 2);
    assert_eq!(entries[0].2, b"after checkpoint");
}

#[test]
fn current_offset_advances_after_writes() {
    let mut wal = WriteAheadLog::new(0);
    let offset_before = wal.current_offset();
    assert_eq!(offset_before, 0);

    wal.append(OP_INSERT, 1, b"payload");
    let offset_after = wal.current_offset();
    assert!(offset_after > offset_before, "offset must grow after write");
    assert_eq!(offset_after, 8 + 9 + 7);
    wal.take_pending();
    assert_eq!(wal.current_offset(), 24);
}

#[test]
fn an_empty_log_replays_nothing() {
    assert!(WriteAheadLog::replay(&[]).is_empty());
}

#[test]
fn a_reopened_log_goes_on_at_its_end() {
    let mut wal = WriteAheadLog::new(100);
    wal.append(OP_DELETE, 1, b"");
    assert_eq!(wal.current_offset(), 117);
    assert_eq!(wal.take_pending().len(), 17);
}

#[test]
fn a_frame_as_bytes() {
    // The body is the text of the check value of the CRC-32.
    let mut wal = WriteAheadLog::new(0);
    wal.append(b'1', u64::from_le_bytes(*b"23456789"), b"");
    let mut expected = vec![9, 0, 0, 0, 0x26, 0x39, 0xF4, 0xCB];
    expected.extend_from_slice(b"123456789");
    assert_eq!(wal.take_pending(), expected);
}

#[test]
fn a_checkpoint_as_bytes() {
    let mut wal = WriteAheadLog::new(0);
    wal.checkpoint(0x0102);
    let bytes = wal.take_pending();
    assert_eq!(bytes.len(), 25);
    assert_eq!(bytes[0..4], [17, 0, 0, 0]);
    assert_eq!(bytes[8], OP_CHECKPOINT);
    assert_eq!(bytes[9..17], [0; 8]);
    assert_eq!(bytes[17..25], [2, 1, 0, 0, 0, 0, 0, 0]);
}

#[test]
fn a_torn_append_loses_that_entry_and_no_other() {
    let mut wal = WriteAheadLog::new(0);
    wal.append(OP_INSERT, 1, b"kept");
    let whole = wal.current_offset() as usize;
    wal.append(OP_INSERT, 2, b"torn");
    let file = wal.take_pending();
    for cut in whole..file.len() {
        let entries = WriteAheadLog::replay(&file[..cut]);
        assert_eq!(entries, vec![(OP_INSERT, 1, b"kept".to_vec())]);
    }
    assert_eq!(WriteAheadLog::replay(&file).len(), 2);
}

#[test]
fn corruption_ends_the_replay() {
    let mut wal = WriteAheadLog::new(0);
    wal.append(OP_INSERT, 1, b"first");
    let second = wal.current_offset() as usize;
    wal.append(OP_INSERT, 2, b"second");
    wal.append(OP_INSERT, 3, b"third");
    let mut file = wal.take_pending();
    file[second + 10] ^= 1;
    assert_eq!(WriteAheadLog::replay(&file), vec![(OP_INSERT, 1, b"first".to_vec())]);
}

#[test]
fn a_matching_frame_without_an_entry_ends_the_replay() {
    let mut wal = WriteAheadLog::new(0);
    wal.append(OP_INSERT, 1, b"kept");
    let kept = vec![(OP_INSERT, 1, b"kept".to_vec())];
    let start = wal.take_pending();
    wal.append(OP_INSERT, 2, b"behind");
    let behind = wal.take_pending();

    // The checksum of no bytes is zero.
    let mut file = start.clone();
    file.extend_from_slice(&[0; 8]);
    file.extend_from_slice(&behind);
    assert_eq!(WriteAheadLog::replay(&file), kept);

    // Eight bytes are no entry, even if they are intact.
    let mut file = start.clone();
    file.extend_from_slice(&encode_frame(b"12345678", 0x9AE0_DAAF));
    file.extend_from_slice(&behind);
    assert_eq!(WriteAheadLog::replay(&file), kept);
}

#[test]
fn zeros_hold_no_entry() {
    for len in 0..40 {
        assert_eq!(WriteAheadLog::replay(&vec![0; len]), vec![]);
    }
}

#[test]
fn judging_a_body_by_its_checksums() {
    assert!(matches!(decode_frame(b"123456789", 1, 2), Frame::Corrupt));
    assert!(matches!(decode_frame(b"12345678", 1, 1), Frame::Short));
    match decode_frame(b"1\x02\0\0\0\0\0\0\0abc", 7, 7) {
        Frame::Entry(op, doc_id, payload) => {
            assert_eq!(op, b'1');
            assert_eq!(doc_id, 2);
            assert_eq!(payload, b"abc");
        }
        _ => panic!("an entry was expected"),
    }
    assert_eq!(encode_frame(b"ab", 0x0403_0201), vec![2, 0, 0, 0, 1, 2, 3, 4, b'a', b'b']);
}
