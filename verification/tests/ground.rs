use mnemonic_recovery::enumeration::all_permutations;
use mnemonic_recovery::hex::{digit_char_of, digit_value, read_byte};
use mnemonic_recovery::odometer::step;
use mnemonic_recovery::places::{is_key, is_number};
use mnemonic_recovery::text::{chars_of, concat3, same_text, split_at, string_of, Separator};

#[test]
fn counting_goes_through_all_digit_sequences() {
    let radix = vec![2, 1, 3];
    let mut digits = vec![0, 0, 0];
    let mut seen = vec![digits.clone()];
    while step(&radix, &mut digits) {
        seen.push(digits.clone());
    }
    assert_eq!(
        seen,
        vec![
            vec![0, 0, 0],
            vec![0, 0, 1],
            vec![0, 0, 2],
            vec![1, 0, 0],
            vec![1, 0, 1],
            vec![1, 0, 2],
        ]
    );
    assert_eq!(digits, vec![0, 0, 0]);
    let mut none: Vec<usize> = Vec::new();
    assert!(!step(&Vec::new(), &mut none));
}

#[test]
fn orderings_come_in_lexicographic_order() {
    assert_eq!(all_permutations(0), vec![Vec::<usize>::new()]);
    assert_eq!(
        all_permutations(3),
        vec![
            vec![0, 1, 2],
            vec![0, 2, 1],
            vec![1, 0, 2],
            vec![1, 2, 0],
            vec![2, 0, 1],
            vec![2, 1, 0],
        ]
    );
}

#[test]
fn keys_and_numbers_are_found() {
    assert!(is_key(&[(4, 9), (7, 1)], 7));
    assert!(!is_key(&[(4, 9), (7, 1)], 9));
    assert!(is_number(&[3, 5], 5));
    assert!(!is_number(&[], 0));
}

#[test]
fn texts_are_compared_and_put_together() {
    assert!(same_text("añb", "añb"));
    assert!(!same_text("a", "A"));
    assert_eq!(concat3("x", "", "yz"), "xyz");
}

#[test]
fn every_separator_makes_a_piece() {
    let pieces: Vec<String> =
        split_at(&chars_of(",a,,b"), Separator::Comma).iter().map(|p| string_of(p)).collect();
    assert_eq!(pieces, vec!["", "a", "", "b"]);
    let lines: Vec<String> =
        split_at(&chars_of("x\ny\n"), Separator::Newline).iter().map(|p| string_of(p)).collect();
    assert_eq!(lines, vec!["x", "y", ""]);
}

#[test]
fn hexadecimal_digits() {
    for d in 0..16u8 {
        assert_eq!(digit_value(digit_char_of(d)), Some(d));
        assert_eq!(digit_value(digit_char_of(d).to_ascii_uppercase()), Some(d));
    }
    assert_eq!(digit_value('g'), None);
    for v in 0..=255u8 {
        let text: Vec<char> = format!("{v:02x}").chars().collect();
        assert_eq!(read_byte(text[0], text[1]), Some(v));
    }
    for pair in ["+5", "++", "5+", "-5", "g0", "0g", " 1"] {
        let chars: Vec<char> = pair.chars().collect();
        assert_eq!(read_byte(chars[0], chars[1]), u8::from_str_radix(pair, 16).ok());
    }
}
