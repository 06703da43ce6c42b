use bootlog::analysis::{AddOutcome, Analysis, BootData};
use bootlog::entry::JournalEntry;
use bootlog::partition::JournalBootEntry;

fn entry(boot: &str, prio: &str, ident: &str, ts: &str, msg: &str) -> JournalEntry {
    JournalEntry {
        priority: Some(prio.to_string()),
        identifier: Some(ident.to_string()),
        boot_id: Some(boot.to_string()),
        timestamp: Some(ts.to_string()),
        message: Some(msg.to_string()),
        seqnum: None,
    }
}

fn batch(boot_id: u128, ts: Option<u128>, entries: Vec<JournalEntry>) -> JournalBootEntry {
    JournalBootEntry { entries, boot_id, start_timestamp: ts }
}

#[test]
fn adding_same_boot_twice_reports_already_present() {
    let mut a = Analysis::new();
    let b = batch(0xA, Some(1000), vec![entry("A", "3", "x", "1000", "fail")]);
    assert_eq!(a.add_boot_entry(&b), Some(AddOutcome::Added));
    let buckets_before = a.by_boot[0].1.by_priority[3].len();
    let msgs_before = a.by_boot[0].1.by_priority[3][0].messages.len();
    assert_eq!(a.add_boot_entry(&b), Some(AddOutcome::AlreadyPresent));
    assert_eq!(a.by_boot.len(), 1);
    assert_eq!(a.by_boot[0].1.by_priority[3].len(), buckets_before);
    assert_eq!(a.by_boot[0].1.by_priority[3][0].messages.len(), msgs_before);
}

#[test]
fn batch_without_start_timestamp_is_not_recorded() {
    let mut a = Analysis::new();
    let b = batch(0xA, None, vec![entry("A", "3", "x", "1000", "fail")]);
    assert_eq!(a.add_boot_entry(&b), None);
    assert_eq!(a.by_boot.len(), 0);
}

#[test]
fn sudo_records_reach_no_bucket() {
    let mut a = Analysis::new();
    let b = batch(
        0xA,
        Some(1000),
        vec![
            entry("A", "0", "sudo", "1000", "auth failure"),
            entry("A", "7", "sudo", "1001", "session opened"),
        ],
    );
    assert_eq!(a.add_boot_entry(&b), Some(AddOutcome::Added));
    let bd = &a.by_boot[0].1;
    for p in 0..8 {
        assert_eq!(bd.by_priority[p].len(), 0, "severity {p} should hold no bucket");
    }
}

#[test]
fn records_bucket_by_severity_then_identifier_in_arrival_order() {
    let mut a = Analysis::new();
    let b = batch(
        0xA,
        Some(1000),
        vec![
            entry("A", "3", "b", "1", "m1"),
            entry("A", "3", "a", "2", "m2"),
            entry("A", "3", "b", "3", "m3"),
            entry("A", "4", "a", "4", "m4"),
        ],
    );
    assert_eq!(a.add_boot_entry(&b), Some(AddOutcome::Added));
    let bd = &a.by_boot[0].1;
    assert_eq!(bd.timestamp, 1000);
    let errors = &bd.by_priority[3];
    assert_eq!(errors.len(), 2);
    assert_eq!(errors[0].identifier, "b");
    assert_eq!(errors[0].messages.len(), 2);
    assert_eq!(errors[0].messages[0].message, "m1");
    assert_eq!(errors[0].messages[1].message, "m3");
    assert_eq!(errors[1].identifier, "a");
    assert_eq!(errors[1].messages[0].message, "m2");
    let warnings = &bd.by_priority[4];
    assert_eq!(warnings.len(), 1);
    assert_eq!(warnings[0].messages[0].time, 4);
}

#[test]
fn custom_ignore_list_is_honored() {
    let mut a = Analysis::with_ignore_list(vec!["noisy".to_string()]);
    let b = batch(
        0xA,
        Some(1),
        vec![
            entry("A", "3", "noisy", "1", "skip me"),
            entry("A", "3", "sudo", "2", "kept here"),
        ],
    );
    assert_eq!(a.add_boot_entry(&b), Some(AddOutcome::Added));
    let bd = &a.by_boot[0].1;
    assert_eq!(bd.by_priority[3].len(), 1);
    assert_eq!(bd.by_priority[3][0].identifier, "sudo");
}

#[test]
fn is_ignored_matches_list() {
    let a = Analysis::new();
    assert!(a.is_ignored(&"sudo".to_string()));
    assert!(!a.is_ignored(&"sshd".to_string()));
}

#[test]
fn contains_boot_reports_presence() {
    let mut a = Analysis::new();
    assert!(!a.contains_boot(0xA));
    let b = batch(0xA, Some(1), vec![]);
    assert_eq!(a.add_boot_entry(&b), Some(AddOutcome::Added));
    assert!(a.contains_boot(0xA));
    assert!(!a.contains_boot(0xB));
}

#[test]
fn boot_data_new_is_empty() {
    let bd = BootData::new(77);
    assert_eq!(bd.timestamp, 77);
    assert_eq!(bd.by_priority.len(), 8);
    assert!(bd.by_priority.iter().all(|row| row.is_empty()));
}
