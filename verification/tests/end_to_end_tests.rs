use bootlog::analysis::{AddOutcome, Analysis};
use bootlog::partition::{decode_frames, JournalBootIterator};
use bootlog::render::{format_report, render, RenderConfig};

fn frame(boot: &str, prio: &str, ident: &str, ts: &str, msg: &str) -> Vec<u8> {
    format!(
        r#"{{"PRIORITY":"{prio}","SYSLOG_IDENTIFIER":"{ident}","_BOOT_ID":"{boot}","__REALTIME_TIMESTAMP":"{ts}","MESSAGE":"{msg}"}}"#
    )
    .into_bytes()
}

#[test]
fn three_records_two_batches_one_collapsed_line() {
    let frames = decode_frames(vec![
        Ok(frame("a", "3", "x", "1000", "fail")),
        Ok(frame("a", "3", "x", "1001", "fail")),
        Ok(frame("b", "4", "y", "2000", "warn")),
    ]);
    let mut it = JournalBootIterator::new(frames);
    let mut a = Analysis::new();
    let first = it.next().unwrap().unwrap();
    assert_eq!(first.boot_id, 0xA);
    assert_eq!(first.entries.len(), 2);
    assert_eq!(a.add_boot_entry(&first), Some(AddOutcome::Added));
    let second = it.next().unwrap().unwrap();
    assert_eq!(second.boot_id, 0xB);
    assert_eq!(second.entries.len(), 1);
    assert_eq!(a.add_boot_entry(&second), Some(AddOutcome::Added));
    assert!(it.next().is_none());

    let cfg = RenderConfig { message_max_length: 175, newest_first: false, color: false };
    let lines = format_report(&render(&a, &cfg, 2000), false);
    assert_eq!(
        lines,
        vec![
            "Boot A (0 hours ago)".to_string(),
            "├─ Error: 2".to_string(),
            "│  ├─ x: 2".to_string(),
            "│  │  │ 2 x \"fail\"".to_string(),
            "Boot B (0 hours ago)".to_string(),
            "├─ Warning: 1".to_string(),
            "│  ├─ y: 1".to_string(),
            "│  │  │ \"warn\"".to_string(),
        ]
    );
}

#[test]
fn sudo_records_are_aggregated_into_zero_buckets() {
    let frames = decode_frames(vec![
        Ok(frame("a", "0", "sudo", "1000", "pam_unix failure")),
        Ok(frame("a", "6", "sudo", "1001", "session opened")),
    ]);
    let mut it = JournalBootIterator::new(frames);
    let mut a = Analysis::new();
    let batch = it.next().unwrap().unwrap();
    assert_eq!(a.add_boot_entry(&batch), Some(AddOutcome::Added));
    let cfg = RenderConfig { message_max_length: 175, newest_first: false, color: false };
    let lines = format_report(&render(&a, &cfg, 1000), false);
    // The boot is summarized, but no severity holds any bucket.
    assert_eq!(lines, vec!["Boot A (0 hours ago)".to_string()]);
    for row in &a.by_boot[0].1.by_priority {
        assert!(row.is_empty());
    }
}

#[test]
fn duplicate_boot_window_does_not_double_count() {
    let raw = vec![
        Ok(frame("a", "3", "x", "1000", "fail")),
        Ok(frame("b", "3", "y", "2000", "boom")),
    ];
    let mut a = Analysis::new();
    // The same window of records arrives twice.
    for _ in 0..2 {
        let mut it = JournalBootIterator::new(decode_frames(raw.clone()));
        while let Some(item) = it.next() {
            a.add_boot_entry(&item.unwrap());
        }
    }
    assert_eq!(a.by_boot.len(), 2);
    assert_eq!(a.by_boot[0].1.by_priority[3][0].messages.len(), 1);
    assert_eq!(a.by_boot[1].1.by_priority[3][0].messages.len(), 1);
}
