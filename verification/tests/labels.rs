use pd_patch::labels::{
    parse_delay_hex, random_unused_delay_hex, strip_brackets, unused_delay_hex_from_seed,
};
use std::collections::HashSet;

#[test]
fn strip_brackets_removes_one_pair() {
    assert_eq!(strip_brackets("[osc~ 440]"), "osc~ 440");
    assert_eq!(strip_brackets("[[x]]"), "[x]");
    assert_eq!(strip_brackets("[]"), "");
    assert_eq!(strip_brackets("["), "[");
    assert_eq!(strip_brackets("[open"), "[open");
    assert_eq!(strip_brackets("plain"), "plain");
    assert_eq!(strip_brackets(""), "");
}

#[test]
fn parse_delay_hex_accepts_hash_and_case() {
    assert_eq!(parse_delay_hex(Some("#1f")), Some(0x1f));
    assert_eq!(parse_delay_hex(Some("1F")), Some(0x1f));
    assert_eq!(parse_delay_hex(Some("#ff")), Some(255));
    assert_eq!(parse_delay_hex(Some("+0a")), Some(10));
    assert_eq!(parse_delay_hex(Some("000ff")), Some(255));
}

#[test]
fn parse_delay_hex_rejects_bad_tokens() {
    assert_eq!(parse_delay_hex(None), None);
    assert_eq!(parse_delay_hex(Some("")), None);
    assert_eq!(parse_delay_hex(Some("#")), None);
    assert_eq!(parse_delay_hex(Some("+")), None);
    assert_eq!(parse_delay_hex(Some("100")), None);
    assert_eq!(parse_delay_hex(Some("-1")), None);
    assert_eq!(parse_delay_hex(Some("g1")), None);
    assert_eq!(parse_delay_hex(Some("##1")), None);
}

#[test]
fn seeded_choice_matches_generator() {
    let used = HashSet::new();
    // seed 0: state 12345, id (12345 >> 16) as u8 = 0.
    assert_eq!(unused_delay_hex_from_seed(0, &used), 0);
    let mut used = HashSet::new();
    used.insert(0u8);
    let s1 = 12345u64;
    let s2 = s1.wrapping_mul(1_103_515_245).wrapping_add(12_345);
    assert_eq!(unused_delay_hex_from_seed(0, &used), (s2 >> 16) as u8);
}

#[test]
fn chosen_id_is_free() {
    let mut used: HashSet<u8> = (0..=255u8).collect();
    used.remove(&77);
    assert_eq!(random_unused_delay_hex(&used), 77);
    used.insert(77);
    assert_eq!(random_unused_delay_hex(&used), 0);
    let some: HashSet<u8> = (0..200u8).collect();
    let id = random_unused_delay_hex(&some);
    assert!(!some.contains(&id));
}
