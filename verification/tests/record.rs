use ferrumdb::record::{frame_record, scan_log, RecordSpan};

#[test]
fn frame_is_length_prefix_then_data() {
    let f = frame_record(b"abc");
    assert_eq!(f, vec![3, 0, 0, 0, 0, 0, 0, 0, b'a', b'b', b'c']);
    assert_eq!(frame_record(b""), vec![0u8; 8]);
}

#[test]
fn scan_finds_each_record() {
    let mut log = frame_record(b"hello");
    log.extend(frame_record(b""));
    log.extend(frame_record(b"xy"));
    let scan = scan_log(&log);
    assert_eq!(
        scan.records,
        vec![
            RecordSpan { offset: 8, size: 5 },
            RecordSpan { offset: 21, size: 0 },
            RecordSpan { offset: 29, size: 2 },
        ]
    );
    assert_eq!(scan.end, log.len() as u64);
}

#[test]
fn scan_skips_incomplete_tail() {
    let mut log = frame_record(b"hello");
    let complete = log.len() as u64;
    log.extend(&[9, 0, 0, 0, 0, 0, 0, 0, 1, 2]);
    let scan = scan_log(&log);
    assert_eq!(scan.records, vec![RecordSpan { offset: 8, size: 5 }]);
    assert_eq!(scan.end, complete);

    let mut log = frame_record(b"hi");
    log.extend(&[1, 2, 3]);
    let scan = scan_log(&log);
    assert_eq!(scan.records.len(), 1);
    assert_eq!(scan.end, 10);

    let huge = u64::MAX.to_le_bytes().to_vec();
    let scan = scan_log(&huge);
    assert!(scan.records.is_empty());
    assert_eq!(scan.end, 0);
}
