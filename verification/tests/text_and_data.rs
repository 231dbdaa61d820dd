use faucet::data::Data;
use faucet::text::{is_space, str_lex_lt, trim, trim_end};
use faucet::{default_max_threshold, default_min_threshold};

#[test]
fn default_thresholds_match_the_documented_values() {
    assert_eq!(default_min_threshold(), 10);
    assert_eq!(default_max_threshold(), 100);
}

#[test]
fn trim_end_removes_only_trailing_white_space() {
    assert_eq!(trim_end("hi \n"), "hi");
    assert_eq!(trim_end("  hi"), "  hi");
    assert_eq!(trim_end("hi"), "hi");
    assert_eq!(trim_end(" \t\n "), "");
    assert_eq!(trim_end(""), "");
}

#[test]
fn trim_removes_white_space_from_both_ends() {
    assert_eq!(trim("  image/png\n"), "image/png");
    assert_eq!(trim("x"), "x");
    assert_eq!(trim("   "), "");
    assert_eq!(trim("a b"), "a b");
}

#[test]
fn is_space_covers_common_white_space() {
    assert!(is_space(' '));
    assert!(is_space('\t'));
    assert!(is_space('\n'));
    assert!(is_space('\u{00A0}'));
    assert!(!is_space('a'));
    assert!(!is_space('0'));
}

#[test]
fn lexicographic_order_on_labels() {
    assert!(str_lex_lt("a", "b"));
    assert!(str_lex_lt("a", "ab"));
    assert!(str_lex_lt("alpha", "zeta"));
    assert!(!str_lex_lt("a", "a"));
    assert!(!str_lex_lt("b", "a"));
    assert!(!str_lex_lt("ab", "a"));
}

#[test]
fn payload_kind_is_reported() {
    assert!(Data::Text("x".to_string()).is_text());
    assert!(!Data::Binary(vec![1, 2, 3]).is_text());
}

#[test]
fn matching_text_for_text_payload_trims_the_end() {
    let d = Data::Text(" hello \n".to_string());
    assert_eq!(d.get_text_for_matching("ignored"), " hello");
}

#[test]
fn matching_text_for_binary_payload_trims_the_mime_type() {
    let d = Data::Binary(vec![0xff, 0xd8]);
    assert_eq!(d.get_text_for_matching("image/jpeg\n"), "image/jpeg");
}
