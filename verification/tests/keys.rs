use mnemonic_recovery::address::parse_target;
use mnemonic_recovery::coin::{default_derivation_path, Coin};
use mnemonic_recovery::keys::{
    btc_address_from_privkey, check_phrase, eth_address_from_privkey, is_target,
    parse_derivation_path, phrase_address, seed_address,
};
use mnemonic_recovery::language::{word_list, Language};
use mnemonic_recovery::search::{check_codes, TokenlistSearch};
use mnemonic_recovery::tokenlist::{parse_tokenlist, validate_slots};
use mnemonic_recovery::word_mode::{split_pinned_words, WordCandidates};
use mnemonic_recovery::word_report::recovered_words;

const PHRASE: &str = "abandon abandon abandon abandon abandon abandon abandon abandon abandon \
                      abandon abandon about";
const BTC: &str = "1LqBGSKuX5yYUonjxT5qGfpUsXKYYWeabA";
const ETH: &str = "0x9858effd232b4033e47d90003d41ec34ecaeda94";

fn path(coin: Coin) -> Vec<u32> {
    parse_derivation_path(default_derivation_path(coin)).unwrap()
}

fn one() -> Vec<u8> {
    let mut secret = vec![0u8; 32];
    secret[31] = 1;
    secret
}

#[test]
fn derivation_paths_are_read() {
    let hardened = 0x8000_0000u32;
    assert_eq!(path(Coin::Btc), vec![44 + hardened, hardened, hardened, 0, 0]);
    assert_eq!(path(Coin::Eth), vec![44 + hardened, 60 + hardened, hardened, 0, 0]);
    assert_eq!(parse_derivation_path("m"), Ok(vec![]));
    assert_eq!(parse_derivation_path("1/2h"), Ok(vec![1, 2 + hardened]));
    for s in ["m/44'/x", "m//0", "m/4294967296", "n/0"] {
        assert_eq!(parse_derivation_path(s), Err("Invalid derivation path".to_string()));
    }
}

#[test]
fn addresses_of_a_secret_key() {
    assert_eq!(
        eth_address_from_privkey(&one()),
        Some("0x7e5f4552091a69125d5dfcb7b8c2659029395bdf".to_string())
    );
    assert_eq!(
        btc_address_from_privkey(&one()),
        Some("1BgGZ9tcN4rm9KBzDn7KprQz87SZ26SAMH".to_string())
    );
}

#[test]
fn no_address_without_a_secret_key() {
    for secret in [vec![], vec![0u8; 32], vec![0xffu8; 32], vec![1u8; 31]] {
        assert_eq!(eth_address_from_privkey(&secret), None);
        assert_eq!(btc_address_from_privkey(&secret), None);
    }
}

#[test]
fn addresses_of_a_phrase() {
    assert_eq!(
        phrase_address(Language::English, PHRASE, &path(Coin::Btc), Coin::Btc),
        Some(BTC.to_string())
    );
    assert_eq!(
        phrase_address(Language::English, PHRASE, &path(Coin::Eth), Coin::Eth),
        Some(ETH.to_string())
    );
}

#[test]
fn the_seed_and_the_path_make_the_address() {
    let seed: Vec<u8> = (0..64).collect();
    let a = seed_address(&seed, &path(Coin::Btc), Coin::Btc).unwrap();
    let b = seed_address(&seed, &[0], Coin::Btc).unwrap();
    assert_ne!(a, b);
    assert!(a.starts_with('1') && b.starts_with('1'));
    let deep: Vec<u32> = vec![0; 256];
    assert_eq!(seed_address(&seed, &deep, Coin::Btc), None);
}

#[test]
fn no_address_for_a_phrase_that_is_not_accepted() {
    let wrong_checksum = PHRASE.replace("about", "abandon");
    let unknown_word = PHRASE.replace("about", "qqq");
    for phrase in [wrong_checksum.as_str(), unknown_word.as_str(), "abandon", ""] {
        assert_eq!(phrase_address(Language::English, phrase, &path(Coin::Btc), Coin::Btc), None);
    }
    assert_eq!(phrase_address(Language::Spanish, PHRASE, &path(Coin::Btc), Coin::Btc), None);
}

#[test]
fn phrases_of_other_languages_are_accepted() {
    for language in [
        Language::Portuguese,
        Language::Spanish,
        Language::French,
        Language::Italian,
        Language::Czech,
        Language::Korean,
        Language::Japanese,
        Language::SimplifiedChinese,
        Language::TraditionalChinese,
    ] {
        // Eleven times the first word and the fourth: the entropy is all zeros, as in English.
        let words = word_list(language);
        let mut phrase = Vec::new();
        for _ in 0..11 {
            phrase.push(words[0].clone());
        }
        phrase.push(words[3].clone());
        let line = phrase.join(" ");
        let address = phrase_address(language, &line, &path(Coin::Btc), Coin::Btc);
        assert!(address.is_some(), "{language:?}");
        assert_ne!(address.unwrap(), BTC);
    }
}

#[test]
fn only_the_target_is_a_hit() {
    let target = BTC.to_string();
    assert!(is_target(&Some(target.clone()), &target));
    assert!(!is_target(&Some(ETH.to_string()), &target));
    assert!(!is_target(&None, &target));
    assert!(check_phrase(Language::English, PHRASE, &path(Coin::Btc), Coin::Btc, &target));
    assert!(!check_phrase(Language::English, PHRASE, &path(Coin::Eth), Coin::Btc, &target));
    assert!(!check_phrase(Language::English, PHRASE, &path(Coin::Btc), Coin::Eth, &target));
}

#[test]
fn word_mode_finds_the_missing_word() {
    let mut args: Vec<String> = vec!["\"abandon\"".to_string(); 11];
    args[10] = "about".to_string();
    let (known, pinned) = split_pinned_words(&args);
    assert_eq!(pinned.len(), 10);
    let wordlist = vec!["zoo".to_string(), "abandon".to_string(), "art".to_string()];
    let target =
        parse_target(Coin::Eth, "9858EfFD232B4033E47d90003D41EC34EcaEda94").unwrap().as_compare_string();
    let mut candidates = WordCandidates::new(&known, &pinned, 12 - known.len(), &wordlist);
    let mut found = None;
    let mut tried = 0;
    while let Some(line) = candidates.next() {
        tried += 1;
        if check_phrase(Language::English, &line, &path(Coin::Eth), Coin::Eth, &target) {
            found = Some(line);
            break;
        }
    }
    assert_eq!(found.as_deref(), Some(PHRASE));
    // The gap in front: first "zoo", then "abandon".
    assert_eq!(tried, 2);
    assert_eq!(recovered_words(&known, PHRASE), vec!["abandon".to_string()]);
}

#[test]
fn tokenlist_mode_finds_the_phrase() {
    let content = "12 about zoo\n\
                   # eleven times the same word\n\
                   abandon,abandon,abandon,abandon,abandon art\n\
                   abandon,abandon,abandon,abandon,\"abandon\",abandon\n";
    let slots = parse_tokenlist(content).1.unwrap();
    assert!(validate_slots(&slots, Language::English, false).is_ok());
    let wordlist = word_list(Language::English);
    let target = BTC.to_string();
    let mut search = TokenlistSearch::new(&slots, None, false, true, &wordlist);
    let mut found = None;
    while let Some(mut subset) = search.next_subset() {
        assert_eq!(subset.chosen, vec![0, 1, 2]);
        while let Some(codes) = subset.phrases.next() {
            let hit =
                check_codes(&wordlist, &codes, Language::English, &path(Coin::Btc), Coin::Btc, &target);
            if hit.is_some() {
                found = hit;
                break;
            }
        }
    }
    assert_eq!(found.as_deref(), Some(PHRASE));
}

#[test]
fn a_phrase_that_leads_elsewhere_is_no_hit() {
    let wordlist = word_list(Language::English);
    let codes = [0u16, 0, 0, 0, 0, 0, 0, 0, 0, 0, 0, 3];
    let target = ETH.to_string();
    let btc = path(Coin::Btc);
    assert_eq!(check_codes(&wordlist, &codes, Language::English, &btc, Coin::Btc, &target), None);
    assert_eq!(
        check_codes(&wordlist, &codes, Language::English, &btc, Coin::Btc, &BTC.to_string()),
        Some(PHRASE.to_string())
    );
}
