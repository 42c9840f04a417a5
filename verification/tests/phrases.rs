use mnemonic_recovery::candidates::{
    expand_alternative, expand_to_candidates, missing_combos, slot_candidates,
};
use mnemonic_recovery::phrases::LazyPhraseIter;
use mnemonic_recovery::tokens::{Token, TokenlistSlot};

fn list(words: &[&str]) -> Vec<String> {
    words.iter().map(|w| w.to_string()).collect()
}

fn word(w: &str) -> Token {
    Token::Word(w.to_string())
}

fn pin(w: &str) -> Token {
    Token::PinnedWord(w.to_string())
}

fn slot(position: Option<usize>, alts: Vec<Vec<Token>>) -> TokenlistSlot {
    TokenlistSlot { position, alts }
}

fn all(mut it: LazyPhraseIter) -> Vec<[u16; 12]> {
    let mut out = Vec::new();
    while let Some(p) = it.next() {
        out.push(p);
    }
    assert!(it.next().is_none());
    out
}

fn refs(slots: &[TokenlistSlot]) -> Vec<&TokenlistSlot> {
    slots.iter().collect()
}

#[test]
fn missing_combos_lists_all_tuples_in_order() {
    assert_eq!(missing_combos(3, 0), vec![Vec::<u16>::new()]);
    assert_eq!(missing_combos(0, 2), Vec::<Vec<u16>>::new());
    assert_eq!(
        missing_combos(2, 2),
        vec![vec![0, 0], vec![0, 1], vec![1, 0], vec![1, 1]]
    );
    assert_eq!(missing_combos(5, 3).len(), 125);
}

#[test]
fn expand_alternative_sorts_the_tokens() {
    let wl = list(&["a", "b", "c", "d"]);
    let alt = vec![word("c"), pin("b"), Token::Missing, word("a")];
    assert_eq!(expand_alternative(&alt, &wl), (vec![2, 0], vec![(1, 1)], vec![2]));
}

#[test]
fn slot_candidates_keep_pinned_words_and_permute_the_others() {
    let got = slot_candidates(&[7, 8], &[(1, 9)], &[3], 4, false, 2);
    assert_eq!(
        got,
        vec![
            vec![7, 9, 8, 0],
            vec![7, 9, 8, 1],
            vec![8, 9, 7, 0],
            vec![8, 9, 7, 1],
        ]
    );
    let kept = slot_candidates(&[7, 8], &[(1, 9)], &[3], 4, true, 2);
    assert_eq!(kept, vec![vec![7, 9, 8, 0], vec![7, 9, 8, 1]]);
}

#[test]
fn slot_candidates_of_three_words_come_in_lexicographic_order() {
    assert_eq!(
        slot_candidates(&[1, 2, 3], &[], &[], 3, false, 10),
        vec![
            vec![1, 2, 3],
            vec![1, 3, 2],
            vec![2, 1, 3],
            vec![2, 3, 1],
            vec![3, 1, 2],
            vec![3, 2, 1],
        ]
    );
}

#[test]
fn repeated_words_are_permuted_like_different_ones() {
    let wl = list(&["a", "b"]);
    let alt = vec![word("a"), word("a")];
    assert_eq!(expand_to_candidates(&alt, &wl, false), vec![vec![0, 0], vec![0, 0]]);
}

#[test]
fn candidates_of_an_alternative_are_as_many_as_counted() {
    let names: Vec<String> = (0..5).map(|i| format!("w{i}")).collect();
    let alt = vec![word("w0"), Token::Missing, word("w3"), pin("w4"), word("w1"), Token::Missing];
    let all = expand_to_candidates(&alt, &names, false);
    assert_eq!(all.len(), 6 * 25);
    assert!(all.iter().all(|c| c.len() == 6 && c[3] == 4));
    assert_eq!(expand_to_candidates(&alt, &names, true).len(), 25);
}

#[test]
fn twelve_single_slots_in_kept_order_give_one_phrase() {
    let wl: Vec<String> = (0..12).map(|i| format!("w{i}")).collect();
    let slots: Vec<TokenlistSlot> =
        (0..12).map(|i| slot(None, vec![vec![word(&format!("w{i}"))]])).collect();
    let got = all(LazyPhraseIter::new(&[], &refs(&slots), true, false, &wl));
    assert_eq!(got, vec![[0, 1, 2, 3, 4, 5, 6, 7, 8, 9, 10, 11]]);
}

#[test]
fn alternatives_and_orders_are_tried_in_turn() {
    let wl: Vec<String> = (0..20).map(|i| format!("w{i}")).collect();
    let six = |from: u16| -> Vec<Token> { (from..from + 6).map(|i| word(&format!("w{i}"))).collect() };
    let slots = vec![slot(None, vec![six(0), six(6)]), slot(None, vec![six(12)])];
    let got = all(LazyPhraseIter::new(&[], &refs(&slots), false, true, &wl));
    let line = |a: u16, b: u16| -> [u16; 12] {
        let mut p = [0u16; 12];
        for i in 0..6 {
            p[i] = a + i as u16;
            p[6 + i] = b + i as u16;
        }
        p
    };
    assert_eq!(got, vec![line(0, 12), line(6, 12), line(12, 0), line(12, 6)]);
}

#[test]
fn fixed_slots_stay_and_the_others_fill_the_rest() {
    let wl: Vec<String> = (0..30).map(|i| format!("w{i}")).collect();
    let fixed = vec![
        slot(Some(4), vec![vec![word("w20")], vec![word("w21")]]),
        slot(Some(1), vec![vec![word("w22")]]),
    ];
    let ten: Vec<Token> = (0..10).map(|i| word(&format!("w{i}"))).collect();
    let free = vec![slot(None, vec![ten])];
    let got = all(LazyPhraseIter::new(&refs(&fixed), &refs(&free), false, true, &wl));
    assert_eq!(
        got,
        vec![
            [22, 0, 1, 20, 2, 3, 4, 5, 6, 7, 8, 9],
            [22, 0, 1, 21, 2, 3, 4, 5, 6, 7, 8, 9],
        ]
    );
}

#[test]
fn phrases_of_another_length_are_left_out() {
    let wl: Vec<String> = (0..12).map(|i| format!("w{i}")).collect();
    let eleven: Vec<Token> = (0..11).map(|i| word(&format!("w{i}"))).collect();
    let twelve: Vec<Token> = (0..12).map(|i| word(&format!("w{i}"))).collect();
    let slots = vec![slot(None, vec![eleven, twelve])];
    let got = all(LazyPhraseIter::new(&[], &refs(&slots), false, true, &wl));
    assert_eq!(got, vec![[0, 1, 2, 3, 4, 5, 6, 7, 8, 9, 10, 11]]);
    assert!(all(LazyPhraseIter::new(&[], &[], false, false, &wl)).is_empty());
}

#[test]
fn unknown_word_is_tried_with_the_whole_list() {
    let wl: Vec<String> = (0..40).map(|i| format!("w{i}")).collect();
    let mut alt: Vec<Token> = (0..11).map(|i| word(&format!("w{i}"))).collect();
    alt.push(Token::Missing);
    let slots = vec![slot(None, vec![alt])];
    let got = all(LazyPhraseIter::new(&[], &refs(&slots), false, true, &wl));
    assert_eq!(got.len(), 40);
    for (i, p) in got.iter().enumerate() {
        assert_eq!(p[10], 10);
        assert_eq!(p[11], i as u16);
    }
}

#[test]
fn every_order_of_the_slots_is_tried() {
    let wl: Vec<String> = (0..12).map(|i| format!("w{i}")).collect();
    let three = |from: usize| -> Vec<Token> {
        (from..from + 3).map(|i| word(&format!("w{i}"))).collect()
    };
    let slots: Vec<TokenlistSlot> = (0..4).map(|i| slot(None, vec![three(3 * i)])).collect();
    let got = all(LazyPhraseIter::new(&[], &refs(&slots), false, true, &wl));
    assert_eq!(got.len(), 24);
    let mut firsts: Vec<Vec<u16>> =
        got.iter().map(|p| vec![p[0], p[3], p[6], p[9]]).collect();
    firsts.sort();
    firsts.dedup();
    assert_eq!(firsts.len(), 24);
    assert_eq!(got[0], [0, 1, 2, 3, 4, 5, 6, 7, 8, 9, 10, 11]);
    assert_eq!(got[23], [9, 10, 11, 6, 7, 8, 3, 4, 5, 0, 1, 2]);
}

#[test]
fn advancing_visits_every_choice_and_comes_back() {
    let wl: Vec<String> = (0..12).map(|i| format!("w{i}")).collect();
    let ten: Vec<Token> = (0..10).map(|i| word(&format!("w{i}"))).collect();
    let two = slot(None, vec![vec![word("w10")], vec![word("w11")]]);
    let three =
        slot(None, vec![vec![word("w0")], vec![word("w1")], vec![word("w2")]]);
    let slots = vec![slot(None, vec![ten]), two, three];
    let mut it = LazyPhraseIter::new(&[], &refs(&slots), false, true, &wl);
    let first = it.build();
    assert_eq!(first, Some([0, 1, 2, 3, 4, 5, 6, 7, 8, 9, 10, 0]));
    let mut seen = vec![first];
    for _ in 0..5 {
        assert!(it.advance());
        assert!(!seen.contains(&it.build()));
        seen.push(it.build());
    }
    assert_eq!(seen[1], Some([0, 1, 2, 3, 4, 5, 6, 7, 8, 9, 10, 1]));
    assert_eq!(seen[5], Some([0, 1, 2, 3, 4, 5, 6, 7, 8, 9, 11, 2]));
    assert!(!it.advance());
    assert_eq!(it.build(), first);
}
