use mnemonic_recovery::text::{chars_of, split_nonempty, string_of, Separator};
use mnemonic_recovery::totals::{factorial, prepare_words, word_mode_total};
use mnemonic_recovery::word_mode::{
    insert_missing, pinned_permutations, split_pinned_words, WordCandidates,
};
use mnemonic_recovery::word_report::{
    check_word_count, known_indices, phrase_text, pinned_text, recovered_words,
};

fn strings(words: &[&str]) -> Vec<String> {
    words.iter().map(|w| w.to_string()).collect()
}

fn orders(words: &[&str], pinned: &[usize]) -> Vec<Vec<String>> {
    let mut it = pinned_permutations(&strings(words), pinned);
    let mut out = Vec::new();
    while let Some(o) = it.next() {
        out.push(o);
    }
    assert!(it.next().is_none());
    out
}

fn inserted(base: &[&str], missing: usize, list: &[&str]) -> Vec<Vec<String>> {
    let list = strings(list);
    let mut it = insert_missing(strings(base), missing, &list);
    let mut out = Vec::new();
    while let Some(v) = it.next() {
        out.push(v);
    }
    assert!(it.next().is_none());
    out
}

fn candidates(words: &[&str], pinned: &[usize], missing: usize, list: &[&str]) -> Vec<String> {
    let list = strings(list);
    let mut it = WordCandidates::new(&strings(words), pinned, missing, &list);
    let mut out = Vec::new();
    while let Some(line) = it.next() {
        out.push(line);
    }
    assert!(it.next().is_none());
    out
}

#[test]
fn quoted_words_are_pinned() {
    let (words, pinned) = split_pinned_words(&strings(&["a", "\"b\"", "c", "\"d\"", "\""]));
    assert_eq!(words, strings(&["a", "b", "c", "d", "\""]));
    assert_eq!(pinned, vec![1, 3]);
}

#[test]
fn all_orders_without_pinned_words() {
    assert_eq!(
        orders(&["a", "b", "c"], &[]),
        vec![
            strings(&["a", "b", "c"]),
            strings(&["a", "c", "b"]),
            strings(&["b", "a", "c"]),
            strings(&["b", "c", "a"]),
            strings(&["c", "a", "b"]),
            strings(&["c", "b", "a"]),
        ]
    );
    assert_eq!(orders(&[], &[]), vec![Vec::<String>::new()]);
}

#[test]
fn pinned_words_stay_in_place() {
    assert_eq!(
        orders(&["a", "b", "c"], &[1]),
        vec![strings(&["a", "b", "c"]), strings(&["c", "b", "a"])]
    );
    assert_eq!(orders(&["a", "b"], &[0, 1]), vec![strings(&["a", "b"])]);
}

#[test]
fn missing_words_go_into_every_gap() {
    assert_eq!(
        inserted(&["x"], 1, &["a", "b"]),
        vec![
            strings(&["a", "x"]),
            strings(&["b", "x"]),
            strings(&["x", "a"]),
            strings(&["x", "b"]),
        ]
    );
    assert_eq!(inserted(&["x", "y"], 0, &["a"]), vec![strings(&["x", "y"])]);
    assert_eq!(inserted(&["x"], 1, &[]), Vec::<Vec<String>>::new());
}

#[test]
fn two_missing_words_are_put_in_one_after_the_other() {
    let got = inserted(&["x"], 2, &["a", "b"]);
    assert_eq!(got.len(), 2 * 2 * 3 * 2);
    assert_eq!(got[0], strings(&["a", "a", "x"]));
    assert_eq!(got[1], strings(&["b", "a", "x"]));
    assert_eq!(got[2], strings(&["a", "a", "x"]));
    assert_eq!(got[23], strings(&["x", "b", "b"]));
    assert!(got.iter().all(|v| v.len() == 3 && v.contains(&"x".to_string())));
}

#[test]
fn candidates_are_lines_of_every_order_and_insertion() {
    assert_eq!(
        candidates(&["x", "y"], &[], 1, &["a"]),
        strings(&["a x y", "x a y", "x y a", "a y x", "y a x", "y x a"])
    );
}

#[test]
fn a_missing_word_can_shift_a_pinned_one() {
    assert_eq!(candidates(&["x"], &[0], 1, &["a"]), strings(&["a x", "x a"]));
}

#[test]
fn total_is_the_number_of_candidates() {
    let list = ["a", "b", "c"];
    for (words, pinned, missing) in [
        (vec!["p", "q", "r"], vec![], 0),
        (vec!["p", "q", "r"], vec![1], 1),
        (vec!["p", "q", "r", "s"], vec![0, 2], 2),
        (vec!["p"], vec![], 3),
    ] {
        let n: usize = words.len();
        assert_eq!(
            candidates(&words, &pinned, missing, &list).len(),
            word_mode_total(n, n - pinned.len(), list.len(), missing)
        );
    }
}

#[test]
fn totals_of_twelve_word_phrases() {
    assert_eq!(factorial(0), 1);
    assert_eq!(factorial(12), 479_001_600);
    assert_eq!(word_mode_total(12, 12, 2048, 0), 479_001_600);
    assert_eq!(word_mode_total(12, 10, 2048, 0), 3_628_800);
    assert_eq!(word_mode_total(11, 11, 2048, 1), 39_916_800 * 12 * 2048);
    assert_eq!(word_mode_total(10, 10, 2048, 2), 3_628_800 * 132 * 2048 * 2048);
    assert_eq!(word_mode_total(3, 3, 0, 1), 0);
}

#[test]
fn recovered_words_are_those_not_known() {
    let known = strings(&["a", "b", "a"]);
    assert_eq!(recovered_words(&known, "a x b a y"), strings(&["x", "y"]));
    assert_eq!(recovered_words(&known, "a a a b"), strings(&["a"]));
    assert_eq!(recovered_words(&known, " b \t a  a "), Vec::<String>::new());
    assert_eq!(recovered_words(&[], "p q"), strings(&["p", "q"]));
}

#[test]
fn recovered_words_of_a_candidate_are_the_missing_ones() {
    let known = strings(&["p", "q"]);
    for line in candidates(&["p", "q"], &[], 2, &["a", "b"]) {
        let r = recovered_words(&known, &line);
        assert_eq!(r.len(), 2);
        assert!(r.iter().all(|w| w == "a" || w == "b"));
    }
}

#[test]
fn words_are_looked_up_in_the_list() {
    let list = strings(&["a", "b", "c"]);
    assert_eq!(known_indices(&strings(&["c", "a", "c"]), &list), Ok(vec![2, 0, 2]));
    assert_eq!(known_indices(&strings(&["c", "x", "y"]), &list), Err("x".to_string()));
    assert_eq!(phrase_text(&list, &[2, 0, 1]), "c a b");
}

#[test]
fn pinned_words_are_listed() {
    assert_eq!(pinned_text(&strings(&["a", "b", "c"]), &[0, 2]), "a, c");
    assert_eq!(pinned_text(&strings(&["a"]), &[]), "");
}

#[test]
fn word_mode_takes_ten_to_twelve_words() {
    for n in 10..=12 {
        assert_eq!(check_word_count(n), Ok(()));
    }
    assert_eq!(
        check_word_count(9),
        Err("Word mode: expected 10–12 words, got 9. Use --tokenlist for slot-based search.".to_string())
    );
    assert!(check_word_count(13).is_err());
    assert!(check_word_count(0).is_err());
}

#[test]
fn gaps_of_a_twelve_word_phrase() {
    for n in 10..=12 {
        assert_eq!(word_mode_total(n, 0, 1, 12 - n), factorial(12) / factorial(n));
    }
}

#[test]
fn search_around_the_given_words_is_prepared() {
    let mut args: Vec<String> = (0..11).map(|i| format!("w{i}")).collect();
    args[3] = "\"w3\"".to_string();
    let setup = prepare_words(&args, 2048);
    assert_eq!(setup.known, (0..11).map(|i| format!("w{i}")).collect::<Vec<String>>());
    assert_eq!(setup.pinned, vec![3]);
    assert_eq!(setup.missing, 1);
    assert_eq!(setup.total, 3_628_800 * 12 * 2048);
    let all: Vec<String> = (0..12).map(|i| format!("\"w{i}\"")).collect();
    let full = prepare_words(&all, 2048);
    assert_eq!(full.missing, 0);
    assert_eq!(full.total, 1);
    assert_eq!(prepare_words(&all, 1 << 20).total, 1);
    let mut only = WordCandidates::new(&full.known, &full.pinned, full.missing, &[]);
    assert_eq!(only.next().unwrap(), "w0 w1 w2 w3 w4 w5 w6 w7 w8 w9 w10 w11");
    assert!(only.next().is_none());
}

#[test]
fn words_are_read_off_a_phrase_again() {
    let list = strings(&["alpha", "beta", "gamma"]);
    let line = phrase_text(&list, &[2, 0, 0, 1]);
    let words: Vec<String> =
        split_nonempty(&chars_of(&line), Separator::Whitespace).iter().map(|w| string_of(w)).collect();
    assert_eq!(words, strings(&["gamma", "alpha", "alpha", "beta"]));
}
