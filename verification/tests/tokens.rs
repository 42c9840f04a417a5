use mnemonic_recovery::text::{
    chars_of, decimal_string, join, parse_number, split_nonempty, string_of, Separator,
};
use mnemonic_recovery::tokens::{find_word, is_pinned_token, strip_pin};

fn strings(words: &[&str]) -> Vec<String> {
    words.iter().map(|w| w.to_string()).collect()
}

#[test]
fn pinned_token_is_in_double_quotes() {
    assert!(is_pinned_token("\"tornado\""));
    assert!(is_pinned_token("\"\""));
    assert!(!is_pinned_token("\""));
    assert!(!is_pinned_token("tornado"));
    assert!(!is_pinned_token("\"tornado"));
    assert!(!is_pinned_token("tornado\""));
    assert!(!is_pinned_token(""));
    assert!(!is_pinned_token("é"));
}

#[test]
fn strip_pin_takes_quotes_off_pinned_tokens_only() {
    assert_eq!(strip_pin("\"tornado\""), "tornado");
    assert_eq!(strip_pin("\"\""), "");
    assert_eq!(strip_pin("\""), "\"");
    assert_eq!(strip_pin("tornado\""), "tornado\"");
    assert_eq!(strip_pin("\"ábaco\""), "ábaco");
}

#[test]
fn find_word_gives_the_first_place() {
    let list = strings(&["art", "bus", "art"]);
    assert_eq!(find_word(&list, &"art".to_string()), Some(0));
    assert_eq!(find_word(&list, &"bus".to_string()), Some(1));
    assert_eq!(find_word(&list, &"Bus".to_string()), None);
}

#[test]
fn whitespace_is_that_of_char() {
    for u in 0..=0x10ffffu32 {
        if let Some(c) = char::from_u32(u) {
            assert_eq!(Separator::Whitespace.splits_at(c), c.is_whitespace(), "U+{:04x}", u);
        }
    }
}

#[test]
fn splitting_is_that_of_split_whitespace() {
    for s in ["", " ", "a", " a  b\tc ", "one\u{3000}two\u{a0}three", "\r\n x \u{2003}y"] {
        let ours: Vec<String> =
            split_nonempty(&chars_of(s), Separator::Whitespace).iter().map(|w| string_of(w)).collect();
        let theirs: Vec<String> = s.split_whitespace().map(|w| w.to_string()).collect();
        assert_eq!(ours, theirs);
    }
}

#[test]
fn numbers_are_read_as_parse_reads_them() {
    for s in [
        "", "0", "7", "12", "007", "+4", "+", "-1", "4x", "x4", " 4", "１２", "18446744073709551615",
        "18446744073709551616", "99999999999999999999999", "+18446744073709551615", "++1", "000000000000000000000000000001",
    ] {
        assert_eq!(parse_number(&chars_of(s)), s.parse::<usize>().ok(), "{s:?}");
    }
}

#[test]
fn decimals_are_written_as_to_string_writes_them() {
    for n in [0u64, 9, 10, 99, 100, 1234567890, u64::MAX] {
        assert_eq!(decimal_string(n), n.to_string());
    }
}

#[test]
fn joining_is_that_of_join() {
    assert_eq!(join(&strings(&[]), " "), "");
    assert_eq!(join(&strings(&["a"]), ", "), "a");
    assert_eq!(join(&strings(&["a", "b", "c"]), ", "), "a, b, c");
}
