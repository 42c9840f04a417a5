use mnemonic_recovery::plan::{split_fixed_free, subset_bounds, SlotPlan, SubsetBounds};
use mnemonic_recovery::search::TokenlistSearch;
use mnemonic_recovery::tokens::{Token, TokenlistSlot};

fn single(position: Option<usize>, w: &str) -> TokenlistSlot {
    TokenlistSlot { position, alts: vec![vec![Token::Word(w.to_string())]] }
}

fn words(n: usize) -> Vec<String> {
    (0..n).map(|i| format!("w{i}")).collect()
}

fn selections(free: &[usize], lo: usize, hi: usize) -> Vec<Vec<usize>> {
    let mut plan = SlotPlan::new(free, lo, hi);
    let mut out = Vec::new();
    while let Some(s) = plan.next() {
        out.push(s);
    }
    assert!(plan.next().is_none());
    out
}

#[test]
fn slots_with_a_position_are_fixed() {
    let slots = vec![single(None, "w0"), single(Some(3), "w1"), single(None, "w2"), single(Some(1), "w3")];
    assert_eq!(split_fixed_free(&slots, false), (vec![1, 3], vec![0, 2]));
}

#[test]
fn all_slots_are_free_when_their_order_is_kept() {
    let slots = vec![single(None, "w0"), single(Some(2), "w1")];
    assert_eq!(split_fixed_free(&slots, true), (vec![], vec![0, 1]));
}

#[test]
fn all_slots_are_used_by_default() {
    assert_eq!(
        subset_bounds(5, 2, 3, None),
        SubsetBounds { min_token: 5, max_token: 5, min_free: 3, max_free: 3 }
    );
}

#[test]
fn minimum_trims_the_free_slots_only() {
    assert_eq!(
        subset_bounds(5, 2, 3, Some(3)),
        SubsetBounds { min_token: 3, max_token: 5, min_free: 1, max_free: 3 }
    );
    assert_eq!(
        subset_bounds(5, 2, 3, Some(1)),
        SubsetBounds { min_token: 1, max_token: 5, min_free: 0, max_free: 3 }
    );
    assert_eq!(
        subset_bounds(5, 2, 3, Some(9)),
        SubsetBounds { min_token: 5, max_token: 5, min_free: 3, max_free: 3 }
    );
}

#[test]
fn selections_come_smaller_ones_first() {
    assert_eq!(
        selections(&[4, 7, 9], 1, 3),
        vec![
            vec![4],
            vec![7],
            vec![9],
            vec![4, 7],
            vec![4, 9],
            vec![7, 9],
            vec![4, 7, 9],
        ]
    );
    assert_eq!(selections(&[4, 7], 0, 0), vec![Vec::<usize>::new()]);
    assert_eq!(selections(&[4, 7], 2, 1), Vec::<Vec<usize>>::new());
    assert_eq!(selections(&[4, 7, 9], 3, 3), vec![vec![4, 7, 9]]);
}

#[test]
fn search_goes_through_the_subsets_with_their_phrases() {
    let wl = words(20);
    let run = |from: usize, n: usize| TokenlistSlot {
        position: None,
        alts: vec![(from..from + n).map(|i| Token::Word(format!("w{i}"))).collect()],
    };
    let slots = vec![single(Some(12), "w19"), run(0, 4), run(4, 4), run(8, 3), run(11, 3)];
    let mut search = TokenlistSearch::new(&slots, Some(4), false, true, &wl);
    assert_eq!(search.fixed_count(), 1);
    assert_eq!(
        search.bounds(),
        SubsetBounds { min_token: 4, max_token: 5, min_free: 3, max_free: 4 }
    );
    let mut counts = Vec::new();
    while let Some(mut subset) = search.next_subset() {
        let mut n = 0;
        while let Some(p) = subset.phrases.next() {
            assert_eq!(p[11], 19);
            n += 1;
        }
        counts.push((subset.chosen, n));
    }
    // Eleven words have to come from the free slots, in any order of the slots.
    assert_eq!(
        counts,
        vec![
            (vec![0, 1, 2, 3], 6),
            (vec![0, 1, 2, 4], 6),
            (vec![0, 1, 3, 4], 0),
            (vec![0, 2, 3, 4], 0),
            (vec![0, 1, 2, 3, 4], 0),
        ]
    );
}

#[test]
fn search_with_kept_order_tries_each_subset_once() {
    let wl = words(13);
    let slots: Vec<TokenlistSlot> = (0..13).map(|i| single(None, &format!("w{i}"))).collect();
    let mut search = TokenlistSearch::new(&slots, Some(12), true, true, &wl);
    let mut phrases: Vec<[u16; 12]> = Vec::new();
    let mut subsets = 0;
    while let Some(mut subset) = search.next_subset() {
        subsets += 1;
        while let Some(p) = subset.phrases.next() {
            assert_eq!(p.iter().map(|c| *c as usize).collect::<Vec<usize>>(), subset.chosen);
            phrases.push(p);
        }
    }
    // Thirteen subsets of twelve slots, and one of thirteen, which gives no phrase.
    assert_eq!(subsets, 14);
    assert_eq!(phrases.len(), 13);
    assert_eq!(phrases[0], [0, 1, 2, 3, 4, 5, 6, 7, 8, 9, 10, 11]);
    assert_eq!(phrases[12], [1, 2, 3, 4, 5, 6, 7, 8, 9, 10, 11, 12]);
}
