use bootlog::parse::{parse_u128_dec, parse_u128_hex};
use bootlog::priority::JournalPriority;

#[test]
fn dec_parses_plain_numbers() {
    assert_eq!(parse_u128_dec("0"), Some(0));
    assert_eq!(parse_u128_dec("1707316800000000"), Some(1707316800000000));
    assert_eq!(parse_u128_dec("340282366920938463463374607431768211455"), Some(u128::MAX));
}

#[test]
fn dec_accepts_leading_plus() {
    assert_eq!(parse_u128_dec("+42"), Some(42));
    assert_eq!(parse_u128_dec("+"), None);
}

#[test]
fn dec_rejects_garbage_and_overflow() {
    assert_eq!(parse_u128_dec(""), None);
    assert_eq!(parse_u128_dec("12a"), None);
    assert_eq!(parse_u128_dec("-1"), None);
    assert_eq!(parse_u128_dec("340282366920938463463374607431768211456"), None);
    assert_eq!(parse_u128_dec("999999999999999999999999999999999999999999"), None);
}

#[test]
fn hex_parses_both_cases() {
    assert_eq!(parse_u128_hex("A"), Some(10));
    assert_eq!(parse_u128_hex("a"), Some(10));
    assert_eq!(parse_u128_hex("dEaDbEeF"), Some(0xdead_beef));
    assert_eq!(parse_u128_hex("ffffffffffffffffffffffffffffffff"), Some(u128::MAX));
}

#[test]
fn hex_rejects_garbage_and_overflow() {
    assert_eq!(parse_u128_hex(""), None);
    assert_eq!(parse_u128_hex("xyz"), None);
    assert_eq!(parse_u128_hex("100000000000000000000000000000000"), None);
}

#[test]
fn hex_matches_std_from_str_radix() {
    for s in ["0", "A", "ff", "DEADBEEF", "+1f", "g", "", "0011"] {
        assert_eq!(parse_u128_hex(s), u128::from_str_radix(s, 16).ok(), "case {s:?}");
    }
}

#[test]
fn dec_matches_std_from_str() {
    for s in ["0", "17", "+9", "nope", "", "007"] {
        assert_eq!(parse_u128_dec(s), s.parse::<u128>().ok(), "case {s:?}");
    }
}

#[test]
fn priority_from_num_covers_the_scale() {
    assert_eq!(JournalPriority::from_num(0), Some(JournalPriority::Emerge));
    assert_eq!(JournalPriority::from_num(3), Some(JournalPriority::Error));
    assert_eq!(JournalPriority::from_num(7), Some(JournalPriority::Debug));
    assert_eq!(JournalPriority::from_num(8), None);
    for n in 0..8u8 {
        assert_eq!(JournalPriority::from_num(n).unwrap().as_num(), n);
    }
}

#[test]
fn priority_ansi_colors() {
    assert_eq!(JournalPriority::Emerge.ansi_color(), "\x1b[35;1m");
    assert_eq!(JournalPriority::Critical.ansi_color(), "\x1b[31;1m");
    assert_eq!(JournalPriority::Error.ansi_color(), "\x1b[31m");
    assert_eq!(JournalPriority::Warning.ansi_color(), "\x1b[33m");
    assert_eq!(JournalPriority::Info.ansi_color(), "");
    assert_eq!(JournalPriority::Debug.ansi_color(), "\x1b[3m");
}

#[test]
fn priority_names() {
    assert_eq!(JournalPriority::Emerge.name(), "Emerge");
    assert_eq!(JournalPriority::Notice.name(), "Notice");
}
