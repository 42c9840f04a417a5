use mnemonic_recovery::language::{word_list, Language};
use mnemonic_recovery::tokenlist::{
    check_slots, loaded_text, parse_tokenlist, positioned_count, validate_slots, SlotError,
    TokenlistError,
};
use mnemonic_recovery::tokens::{Token, TokenlistSlot};

fn token(t: &Token) -> String {
    match t {
        Token::Word(w) => w.clone(),
        Token::PinnedWord(w) => format!("[{w}]"),
        Token::Missing => "?".to_string(),
    }
}

fn shown(slots: &[TokenlistSlot]) -> Vec<(Option<usize>, Vec<Vec<String>>)> {
    slots
        .iter()
        .map(|s| (s.position, s.alts.iter().map(|a| a.iter().map(token).collect()).collect()))
        .collect()
}

fn read(content: &str) -> Vec<TokenlistSlot> {
    match parse_tokenlist(content).1 {
        Ok(slots) => slots,
        Err(e) => panic!("{}", e.message()),
    }
}

fn row(words: &[&str]) -> Vec<String> {
    words.iter().map(|w| w.to_string()).collect()
}

fn refused(content: &str, keep_token_order: bool) -> SlotError {
    match validate_slots(&read(content), Language::English, keep_token_order) {
        Ok(()) => panic!("accepted"),
        Err(e) => e,
    }
}

#[test]
fn documented_example_with_alternatives() {
    let slots = read(
        "zebra,\"tornado\",gravity,?   abandon,art\norbit,galaxy\nventure,sun\n",
    );
    assert_eq!(
        shown(&slots),
        vec![
            (None, vec![row(&["zebra", "[tornado]", "gravity", "?"]), row(&["abandon", "art"])]),
            (None, vec![row(&["orbit", "galaxy"])]),
            (None, vec![row(&["venture", "sun"])]),
        ]
    );
    assert!(validate_slots(&slots, Language::English, false).is_ok());
    assert_eq!(loaded_text(&slots), "Loaded 3 slot(s) from tokenlist.");
}

#[test]
fn documented_example_with_positions() {
    let slots = read("1 dutch\n4 fiber\n?\nfork sponsor\n");
    assert_eq!(
        shown(&slots),
        vec![
            (Some(1), vec![row(&["dutch"])]),
            (Some(4), vec![row(&["fiber"])]),
            (None, vec![row(&["?"])]),
            (None, vec![row(&["fork"]), row(&["sponsor"])]),
        ]
    );
    assert_eq!(positioned_count(&slots), 2);
    assert_eq!(loaded_text(&slots), "Loaded 4 slot(s) from tokenlist (2 with a fixed position).");
    assert!(validate_slots(&slots, Language::English, false).is_ok());
}

#[test]
fn blank_lines_and_comments_are_ignored() {
    let plain = shown(&read("art\nbus\n"));
    assert_eq!(shown(&read("\n  # a comment\n art \r\n\t\n#bus\nbus")), plain);
}

#[test]
fn commas_with_nothing_between_are_skipped_with_a_warning() {
    let (warnings, slots) = parse_tokenlist("art,,bus,\n,,\n3 , ,\nsun ,\n");
    assert_eq!(warnings, vec![2, 3]);
    assert_eq!(
        shown(&slots.unwrap()),
        vec![(None, vec![row(&["art", "bus"])]), (None, vec![row(&["sun"])])]
    );
}

#[test]
fn only_a_bare_number_is_a_position() {
    let slots = read("4x art\n4,art\n+4 art\n");
    assert_eq!(
        shown(&slots),
        vec![
            (None, vec![row(&["4x"]), row(&["art"])]),
            (None, vec![row(&["4", "art"])]),
            (Some(4), vec![row(&["art"])]),
        ]
    );
}

#[test]
fn position_without_a_word_is_refused() {
    let (warnings, slots) = parse_tokenlist(",\nart\n 4 \n,\n");
    assert_eq!(warnings, vec![1]);
    let e = slots.unwrap_err();
    assert_eq!(e, TokenlistError::PositionWithoutWord { line: 3 });
    assert_eq!(e.message(), "Line 3: has a position number but no word/alternative after it");
}

#[test]
fn tokenlist_without_slots_is_refused() {
    for content in ["", "\n\n", "# only\n#comments", ",,,\n"] {
        let e = parse_tokenlist(content).1.unwrap_err();
        assert_eq!(e, TokenlistError::NoSlots);
        assert_eq!(e.message(), "Tokenlist is empty or has no valid lines");
    }
}

#[test]
fn unknown_words_are_refused() {
    let e = refused("art\nbus art,qqq,zzz\n", false);
    assert!(matches!(&e, SlotError::UnknownWord { slot: 2, alt: 2, word } if word == "qqq"));
    assert_eq!(e.message(), "Slot 2, alt 2: 'qqq' not in BIP-39 wordlist");
    assert_eq!(refused("\"qqq\"\n", false).message(), "Slot 1, alt 1: 'qqq' not in BIP-39 wordlist");
}

#[test]
fn positions_outside_the_phrase_are_refused() {
    assert_eq!(
        refused("art\n13 bus\n", false).message(),
        "Slot 2: fixed position 13 out of range (must be 1..=12)"
    );
    assert!(matches!(
        refused("0 bus\n", false),
        SlotError::PositionOutOfRange { slot: 1, position: 0 }
    ));
}

#[test]
fn positions_that_are_taken_are_refused() {
    let e = refused("3 art\nbus\n3 sun\n", false);
    assert!(matches!(e, SlotError::PositionTaken { slot: 3, position: 3 }));
    assert_eq!(e.message(), "Slot 3: fixed position 3 is already used by another slot");
}

#[test]
fn positions_hold_single_words() {
    let e = refused("3 art bus,sun\n", false);
    assert!(matches!(e, SlotError::SeveralWords { slot: 1, position: 3, alt: 2 }));
    assert_eq!(
        e.message(),
        "Slot 1 (fixed position 3), alt 2: must be exactly one word/'?' — a slot with a fixed \
         position occupies a single spot in the phrase"
    );
}

#[test]
fn kept_order_asks_for_matching_positions() {
    let e = refused("art\n3 bus\n", true);
    assert!(matches!(e, SlotError::OrderConflict { slot: 2, position: 3 }));
    assert_eq!(
        e.message(),
        "Slot 2: fixed position 3 conflicts with --keep-token-order, which already fixes this \
         slot at position 2 (its line order)"
    );
    assert!(validate_slots(&read("art\n2 bus\n"), Language::English, true).is_ok());
    assert!(validate_slots(&read("art\n3 bus\n"), Language::English, false).is_ok());
}

#[test]
fn words_are_checked_before_positions() {
    assert_eq!(
        refused("13 qqq\n", false).message(),
        "Slot 1, alt 1: 'qqq' not in BIP-39 wordlist"
    );
}

#[test]
fn slots_are_checked_against_the_given_list() {
    let list: Vec<String> = vec!["alpha".to_string()];
    assert!(check_slots(&read("alpha ?\n"), &list, false).is_ok());
    assert!(check_slots(&read("art\n"), &list, false).is_err());
}

#[test]
fn word_lists_have_2048_words() {
    for language in [
        Language::English,
        Language::Portuguese,
        Language::Spanish,
        Language::French,
        Language::Italian,
        Language::Czech,
        Language::Korean,
        Language::Japanese,
        Language::SimplifiedChinese,
        Language::TraditionalChinese,
    ] {
        let words = word_list(language);
        assert_eq!(words.len(), 2048);
        assert!(words.iter().all(|w| !w.is_empty() && !w.contains(char::is_whitespace)));
    }
    assert_eq!(word_list(Language::English)[0], "abandon");
    assert_eq!(word_list(Language::English)[2047], "zoo");
    assert_eq!(word_list(Language::Spanish)[2047], "zurdo");
}
