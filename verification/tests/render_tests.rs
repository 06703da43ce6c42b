use bootlog::analysis::{Analysis, MessageEntry};
use bootlog::render::{
    collapse_messages, dec_of_u128, format_report, hex_of_u128, render, sort_indices_by_key,
    str_lex_le, truncate_message, RenderConfig,
};

fn msg(text: &str) -> MessageEntry {
    MessageEntry { time: 0, message: text.to_string() }
}

#[test]
fn consecutive_duplicates_collapse_with_run_length() {
    let msgs = vec![msg("a"), msg("a"), msg("a"), msg("b"), msg("a")];
    let runs = collapse_messages(&msgs);
    let flat: Vec<(&str, usize)> = runs.iter().map(|r| (r.0.as_str(), r.1)).collect();
    assert_eq!(flat, vec![("a", 3), ("b", 1), ("a", 1)]);
}

#[test]
fn collapse_of_uniform_sequence_is_one_run() {
    let msgs = vec![msg("same"), msg("same")];
    let runs = collapse_messages(&msgs);
    assert_eq!(runs.len(), 1);
    assert_eq!(runs[0].0, "same");
    assert_eq!(runs[0].1, 2);
}

#[test]
fn truncation_cuts_at_character_count() {
    let (s, cut) = truncate_message("abcdefgh", 4);
    assert_eq!(s, "abcd");
    assert!(cut);
    let (s, cut) = truncate_message("abc", 4);
    assert_eq!(s, "abc");
    assert!(!cut);
    let (s, cut) = truncate_message("abcd", 4);
    assert_eq!(s, "abcd");
    assert!(!cut);
}

#[test]
fn truncation_counts_characters_not_bytes() {
    let (s, cut) = truncate_message("ééééé", 3);
    assert_eq!(s, "ééé");
    assert!(cut);
}

#[test]
fn hex_and_dec_numerals() {
    assert_eq!(hex_of_u128(0), "0");
    assert_eq!(hex_of_u128(10), "A");
    assert_eq!(hex_of_u128(0xDEADBEEF), "DEADBEEF");
    assert_eq!(hex_of_u128(u128::MAX), "FFFFFFFFFFFFFFFFFFFFFFFFFFFFFFFF");
    assert_eq!(dec_of_u128(0), "0");
    assert_eq!(dec_of_u128(1234), "1234");
}

#[test]
fn string_order_is_lexicographic() {
    assert!(str_lex_le("a", "b"));
    assert!(!str_lex_le("b", "a"));
    assert!(str_lex_le("abc", "abd"));
    assert!(str_lex_le("ab", "abc"));
    assert!(!str_lex_le("abc", "ab"));
    assert!(str_lex_le("same", "same"));
    for (a, b) in [("x", "y"), ("alpha", "beta"), ("b", "ab"), ("Z", "a")] {
        assert_eq!(str_lex_le(a, b), a <= b, "case {a:?} {b:?}");
    }
}

#[test]
fn index_sort_is_stable() {
    let keys = vec![5u128, 3, 5, 1];
    let order = sort_indices_by_key(&keys);
    assert_eq!(order, vec![3, 1, 0, 2]);
}

fn entry(boot: &str, prio: &str, ident: &str, ts: &str, m: &str) -> bootlog::entry::JournalEntry {
    bootlog::entry::JournalEntry {
        priority: Some(prio.to_string()),
        identifier: Some(ident.to_string()),
        boot_id: Some(boot.to_string()),
        timestamp: Some(ts.to_string()),
        message: Some(m.to_string()),
        seqnum: None,
    }
}

fn one_boot_analysis() -> Analysis {
    let mut a = Analysis::new();
    let b = bootlog::partition::JournalBootEntry {
        entries: vec![
            entry("A", "4", "zeta", "1000", "w1"),
            entry("A", "3", "beta", "1001", "e1"),
            entry("A", "3", "alpha", "1002", "e2"),
            entry("A", "3", "beta", "1003", "e3"),
        ],
        boot_id: 0xA,
        start_timestamp: Some(1000),
    };
    a.add_boot_entry(&b);
    a
}

#[test]
fn severities_render_most_severe_first_and_idents_lexicographic() {
    let a = one_boot_analysis();
    let cfg = RenderConfig { message_max_length: 100, newest_first: false, color: false };
    let r = render(&a, &cfg, 1000);
    assert_eq!(r.len(), 1);
    let boot = &r[0];
    // Error (3) before Warning (4), whatever the insertion order was.
    assert_eq!(boot.priorities.len(), 2);
    assert_eq!(boot.priorities[0].priority.as_num(), 3);
    assert_eq!(boot.priorities[1].priority.as_num(), 4);
    assert_eq!(boot.priorities[0].total, 3);
    // Identifiers sorted lexicographically, not in arrival order.
    let names: Vec<&str> =
        boot.priorities[0].idents.iter().map(|i| i.identifier.as_str()).collect();
    assert_eq!(names, vec!["alpha", "beta"]);
    assert_eq!(boot.priorities[0].idents[1].total, 2);
}

#[test]
fn boots_render_newest_first_by_default_order_flag() {
    let mut a = Analysis::new();
    for (boot, ts) in [("1", "1000"), ("2", "5000"), ("3", "3000")] {
        let b = bootlog::partition::JournalBootEntry {
            entries: vec![entry(boot, "3", "x", ts, "m")],
            boot_id: u128::from_str_radix(boot, 16).unwrap(),
            start_timestamp: Some(ts.parse().unwrap()),
        };
        a.add_boot_entry(&b);
    }
    let newest = RenderConfig { message_max_length: 10, newest_first: true, color: false };
    let r = render(&a, &newest, 10000);
    let ids: Vec<u128> = r.iter().map(|b| b.boot_id).collect();
    assert_eq!(ids, vec![2, 3, 1]);
    let oldest = RenderConfig { message_max_length: 10, newest_first: false, color: false };
    let r = render(&a, &oldest, 10000);
    let ids: Vec<u128> = r.iter().map(|b| b.boot_id).collect();
    assert_eq!(ids, vec![1, 3, 2]);
}

#[test]
fn hours_since_boot_is_whole_hours() {
    let a = one_boot_analysis();
    let cfg = RenderConfig { message_max_length: 10, newest_first: false, color: false };
    let two_hours_later = 1000 + 2 * 3_600_000_000;
    let r = render(&a, &cfg, two_hours_later);
    assert_eq!(r[0].hours_since, 2);
}

#[test]
fn report_lines_collapse_and_annotate() {
    let a = one_boot_analysis();
    let cfg = RenderConfig { message_max_length: 100, newest_first: false, color: false };
    let lines = format_report(&render(&a, &cfg, 1000), false);
    assert_eq!(lines[0], "Boot A (0 hours ago)");
    assert_eq!(lines[1], "├─ Error: 3");
    assert_eq!(lines[2], "│  ├─ alpha: 1");
    assert_eq!(lines[3], "│  │  │ \"e2\"");
    assert_eq!(lines[4], "│  ├─ beta: 2");
    assert_eq!(lines[5], "│  │  │ \"e1\"");
    assert_eq!(lines[6], "│  │  │ \"e3\"");
    assert_eq!(lines[7], "├─ Warning: 1");
    assert_eq!(lines[8], "│  ├─ zeta: 1");
    assert_eq!(lines[9], "│  │  │ \"w1\"");
    assert_eq!(lines.len(), 10);
}

#[test]
fn truncated_lines_carry_the_marker() {
    let mut a = Analysis::new();
    let b = bootlog::partition::JournalBootEntry {
        entries: vec![entry("A", "3", "x", "0", "0123456789")],
        boot_id: 0xA,
        start_timestamp: Some(0),
    };
    a.add_boot_entry(&b);
    let cfg = RenderConfig { message_max_length: 4, newest_first: false, color: false };
    let lines = format_report(&render(&a, &cfg, 0), false);
    assert_eq!(lines[2], "│  ├─ x: 1");
    assert_eq!(lines[3], "│  │  │ \"0123\"...");
}

#[test]
fn color_styles_only_the_presentation() {
    let a = one_boot_analysis();
    let cfg = RenderConfig { message_max_length: 100, newest_first: false, color: true };
    let plain_cfg = RenderConfig { message_max_length: 100, newest_first: false, color: false };
    let colored = format_report(&render(&a, &cfg, 1000), true);
    let plain = format_report(&render(&a, &plain_cfg, 1000), false);
    assert_eq!(colored.len(), plain.len());
    assert_eq!(colored[1], "├─ \x1b[31mError: 3\x1b[0m");
    // Stripping the escapes gives the plain line back.
    let stripped: String = {
        let mut s = String::new();
        let mut it = colored[0].chars().peekable();
        while let Some(c) = it.next() {
            if c == '\x1b' {
                while let Some(&d) = it.peek() {
                    it.next();
                    if d == 'm' {
                        break;
                    }
                }
            } else {
                s.push(c);
            }
        }
        s
    };
    assert_eq!(stripped, plain[0]);
}
