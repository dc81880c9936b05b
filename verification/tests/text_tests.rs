use tablebot::history::guild_dir;
use tablebot::text::{decimal, is_whitespace_char, trim_text, join_strings, push_left_aligned, push_right_aligned, same_text, signed_decimal_text, split_on, text_lt};

#[test]
fn splitting_on_commas() {
    assert_eq!(split_on("a,b,,c", ','), vec!["a", "b", "", "c"]);
    assert_eq!(split_on("", ','), vec![""]);
}

#[test]
fn decimals() {
    assert_eq!(decimal(0), "0");
    assert_eq!(decimal(-45), "-45");
    assert_eq!(decimal(i64::MIN), "-9223372036854775808");
    assert_eq!(signed_decimal_text(3), "+3");
    assert_eq!(signed_decimal_text(0), "+0");
    assert_eq!(signed_decimal_text(-2), "-2");
}

#[test]
fn padding() {
    let mut s = String::new();
    push_right_aligned(&mut s, "7", 3);
    push_left_aligned(&mut s, "ab", 4);
    push_right_aligned(&mut s, "long", 2);
    assert_eq!(s, "  7ab  long");
}

#[test]
fn order_and_equality_of_names() {
    assert!(text_lt("ARSENAL", "CHELSEA"));
    assert!(text_lt("CHEL", "CHELSEA"));
    assert!(!text_lt("CHELSEA", "CHELSEA"));
    assert!(same_text("PSG", "PSG"));
    assert!(!same_text("PSG", "PSV"));
}

#[test]
fn joining_and_directories() {
    assert_eq!(join_strings(&vec!["A".to_string(), "B".to_string()], ", "), "A, B");
    assert_eq!(join_strings(&vec![], ", "), "");
    assert_eq!(guild_dir(123456789), "data/123456789");
}

#[test]
fn servers_get_their_own_directories() {
    assert_ne!(guild_dir(12), guild_dir(120));
    assert_ne!(guild_dir(1), guild_dir(10));
    assert_eq!(guild_dir(0), "data/0");
}

#[test]
fn whitespace_is_what_std_calls_whitespace() {
    for c in (0u32..=0x10FFFF).filter_map(char::from_u32) {
        assert_eq!(is_whitespace_char(c), c.is_whitespace(), "{:?}", c);
    }
}

#[test]
fn trimming_matches_str_trim() {
    for s in ["  a b ", "\u{3000}x\u{85}", "", "   ", "\tCHELSEA\n", "é é"] {
        assert_eq!(trim_text(s), s.trim());
    }
}
