use bootlog::entry::JournalEntry;
use bootlog::partition::{decode_frames, partition_all, DecodedFrame, JournalBootIterator};

fn entry(boot: &str, prio: &str, ident: &str, ts: &str, msg: &str) -> JournalEntry {
    JournalEntry {
        priority: Some(prio.to_string()),
        identifier: Some(ident.to_string()),
        boot_id: Some(boot.to_string()),
        timestamp: Some(ts.to_string()),
        message: Some(msg.to_string()),
        seqnum: None,
    }
}

#[test]
fn entry_accessors_parse_fields() {
    let e = entry("A", "3", "x", "1000", "fail");
    assert_eq!(e.get_boot_id(), Some(0xA));
    assert_eq!(e.get_priority(), Some(bootlog::priority::JournalPriority::Error));
    assert_eq!(e.get_timestamp(), Some(1000));
    assert_eq!(e.get_identifier(), Some("x"));
    assert_eq!(e.get_message(), Some("fail"));
    assert_eq!(e.get_sequence_number_id(), None);
}

#[test]
fn entry_accessors_report_missing_or_malformed_fields() {
    let mut e = entry("zz", "9", "x", "later", "m");
    assert_eq!(e.get_boot_id(), None);
    assert_eq!(e.get_priority(), None);
    assert_eq!(e.get_timestamp(), None);
    e.priority = None;
    assert_eq!(e.get_priority(), None);
}

#[test]
fn decode_frames_reads_json_records() {
    let good = br#"{"PRIORITY":"3","SYSLOG_IDENTIFIER":"x","_BOOT_ID":"a","__REALTIME_TIMESTAMP":"1000","MESSAGE":"fail"}"#.to_vec();
    let bad = b"{not json".to_vec();
    let frames = decode_frames(vec![Ok(good), Ok(bad), Err("pipe broke".to_string())]);
    assert_eq!(frames.len(), 3);
    match &frames[0] {
        DecodedFrame::Entry(e) => {
            assert_eq!(e.get_boot_id(), Some(0xA));
            assert_eq!(e.get_identifier(), Some("x"));
            assert_eq!(e.get_message(), Some("fail"));
        }
        _ => panic!("expected a decoded record"),
    }
    assert!(matches!(frames[1], DecodedFrame::Malformed));
    match &frames[2] {
        DecodedFrame::ReadFailure(c) => assert_eq!(c, "pipe broke"),
        _ => panic!("expected a read failure"),
    }
}

#[test]
fn decode_frames_identifier_falls_back_to_comm() {
    let frame = br#"{"_COMM":"sshd","_BOOT_ID":"b"}"#.to_vec();
    let frames = decode_frames(vec![Ok(frame)]);
    match &frames[0] {
        DecodedFrame::Entry(e) => {
            assert_eq!(e.get_identifier(), Some("sshd"));
            assert_eq!(e.get_message(), None);
        }
        _ => panic!("expected a decoded record"),
    }
}

#[test]
fn partitioner_groups_contiguous_boot_runs() {
    let frames = vec![
        DecodedFrame::Entry(entry("A", "3", "x", "1000", "fail")),
        DecodedFrame::Entry(entry("A", "3", "x", "1001", "fail")),
        DecodedFrame::Entry(entry("B", "4", "y", "2000", "warn")),
    ];
    let mut it = JournalBootIterator::new(frames);
    let first = it.next().unwrap().unwrap();
    assert_eq!(first.boot_id, 0xA);
    assert_eq!(first.start_timestamp, Some(1000));
    assert_eq!(first.entries.len(), 2);
    let second = it.next().unwrap().unwrap();
    assert_eq!(second.boot_id, 0xB);
    assert_eq!(second.entries.len(), 1);
    assert!(it.next().is_none());
}

#[test]
fn partitioner_separates_noncontiguous_runs_of_same_boot() {
    let frames = vec![
        DecodedFrame::Entry(entry("A", "3", "x", "1", "m1")),
        DecodedFrame::Entry(entry("B", "3", "x", "2", "m2")),
        DecodedFrame::Entry(entry("A", "3", "x", "3", "m3")),
    ];
    let mut it = JournalBootIterator::new(frames);
    assert_eq!(it.next().unwrap().unwrap().boot_id, 0xA);
    assert_eq!(it.next().unwrap().unwrap().boot_id, 0xB);
    assert_eq!(it.next().unwrap().unwrap().boot_id, 0xA);
    assert!(it.next().is_none());
}

#[test]
fn lookahead_failure_emits_batch_then_error() {
    let frames = vec![
        DecodedFrame::Entry(entry("A", "3", "x", "1", "m")),
        DecodedFrame::ReadFailure("pipe broke".to_string()),
        DecodedFrame::Entry(entry("B", "3", "x", "2", "m")),
    ];
    let mut it = JournalBootIterator::new(frames);
    let batch = it.next().unwrap().unwrap();
    assert_eq!(batch.boot_id, 0xA);
    assert_eq!(batch.entries.len(), 1);
    let err = it.next().unwrap().unwrap_err();
    assert_eq!(err.boot_id, Some(0xA));
    assert_eq!(err.cause, "pipe broke");
    let after = it.next().unwrap().unwrap();
    assert_eq!(after.boot_id, 0xB);
    assert!(it.next().is_none());
}

#[test]
fn malformed_lookahead_becomes_error_item() {
    let frames = vec![
        DecodedFrame::Entry(entry("A", "3", "x", "1", "m")),
        DecodedFrame::Malformed,
        DecodedFrame::Entry(entry("B", "3", "x", "2", "m")),
    ];
    let mut it = JournalBootIterator::new(frames);
    assert_eq!(it.next().unwrap().unwrap().boot_id, 0xA);
    let err = it.next().unwrap().unwrap_err();
    assert_eq!(err.boot_id, Some(0xA));
    assert_eq!(err.cause, "malformed frame");
    assert_eq!(it.next().unwrap().unwrap().boot_id, 0xB);
}

#[test]
fn malformed_first_record_terminates_stream() {
    let frames = vec![
        DecodedFrame::Malformed,
        DecodedFrame::Entry(entry("B", "3", "x", "2", "m")),
    ];
    let mut it = JournalBootIterator::new(frames);
    assert!(it.next().is_none());
    assert!(it.next().is_none());
}

#[test]
fn read_failure_at_boundary_is_error_then_stream_goes_on() {
    let frames = vec![
        DecodedFrame::ReadFailure("gone".to_string()),
        DecodedFrame::Entry(entry("B", "3", "x", "2", "m")),
    ];
    let mut it = JournalBootIterator::new(frames);
    let err = it.next().unwrap().unwrap_err();
    assert_eq!(err.boot_id, None);
    assert_eq!(err.cause, "gone");
    assert_eq!(it.next().unwrap().unwrap().boot_id, 0xB);
}

#[test]
fn partition_all_partitions_exactly() {
    let frames = vec![
        DecodedFrame::Entry(entry("A", "3", "x", "1", "m1")),
        DecodedFrame::Entry(entry("A", "3", "x", "2", "m2")),
        DecodedFrame::Entry(entry("B", "4", "y", "3", "m3")),
        DecodedFrame::Entry(entry("A", "3", "x", "4", "m4")),
    ];
    let batches = partition_all(frames);
    assert_eq!(batches.len(), 3);
    assert_eq!(batches[0].boot_id, 0xA);
    assert_eq!(batches[0].entries.len(), 2);
    assert_eq!(batches[1].boot_id, 0xB);
    assert_eq!(batches[1].entries.len(), 1);
    assert_eq!(batches[2].boot_id, 0xA);
    assert_eq!(batches[2].entries.len(), 1);
    let total: usize = batches.iter().map(|b| b.entries.len()).sum();
    assert_eq!(total, 4);
    assert_eq!(batches[0].entries[0].get_message(), Some("m1"));
    assert_eq!(batches[0].entries[1].get_message(), Some("m2"));
    assert_eq!(batches[2].entries[0].get_message(), Some("m4"));
}
