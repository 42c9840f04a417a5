//! Laws of the phrases of tokenlist mode.
use vstd::prelude::*;

use crate::candidates::alternative_candidates;
use crate::enumeration::iota;
use crate::laws::candidates::{is_candidate, lemma_last_value, slot_options_are_all};
use crate::listing::{
    concat_range, lemma_concat_contains, lemma_concat_ext, lemma_permutations_complete,
    lemma_permutations_first, lemma_permutations_sound, lemma_tuples_contains, product, tuples, within, zeros,
};
use crate::odometer::{counting_visits_everything_once, next_digits, nth_digits};
use crate::phrases::{
    assemble, fixed_pairs, lemma_somes_concat, lemma_somes_contains, slot_options, slot_orders,
    somes, space_of, word_line, PhraseSpace,
};
use crate::places::{
    count, free_at, has_number, last_value, lemma_count_bounds, number_stands_in_the_list,
};
use crate::tokens::{SlotView, TokenView};

verus! {

////// Choices

/// One option for each slot, in the order in which the slots are placed.
pub open spec fn is_choice(s: PhraseSpace, order: Seq<int>, chosen: Seq<Seq<u16>>) -> bool {
    &&& chosen.len() == s.chain(order).len()
    &&& forall|p: int|
        0 <= p < chosen.len() ==> s.options[s.chain(order)[p]].contains(#[trigger] chosen[p])
}

/// The options chosen for the slots in the `k`-th order give this phrase.
pub open spec fn gives(s: PhraseSpace, k: int, chosen: Seq<Seq<u16>>, p: Seq<u16>) -> bool {
    &&& 0 <= k < s.orders.len()
    &&& is_choice(s, s.orders[k], chosen)
    &&& assemble(s.fixed, chosen) == Some(p)
}

/// Every order and every choice of options is tried, and no phrase comes from anything else.
pub proof fn phrases_are_all(s: PhraseSpace, p: Seq<u16>)
    ensures
        s.phrases().contains(p) <==> exists|k: int, chosen: Seq<Seq<u16>>| #[trigger]
            gives(s, k, chosen, p),
{
    let by_order = s.phrases_of_order();
    lemma_concat_contains(0, s.orders.len() as int, by_order, p);
    if s.phrases().contains(p) {
        let k = choose|k: int| 0 <= k < s.orders.len() && #[trigger] by_order(k).contains(p);
        let order = s.orders[k];
        let f = |d: Seq<int>| s.phrase(order, d);
        let all = tuples(s.radix(order));
        lemma_somes_contains(all.map_values(f), p);
        let j = all.map_values(f).index_of(Some(p));
        let d = all[j];
        assert(all.contains(d));
        lemma_tuples_contains(s.radix(order), d);
        let chosen = s.chosen(order, d);
        assert forall|q: int| 0 <= q < chosen.len() implies s.options[s.chain(
            order,
        )[q]].contains(#[trigger] chosen[q]) by {
            assert(0 <= d[q] < s.radix(order)[q]);
        }
        assert(gives(s, k, chosen, p));
    }
    if exists|k: int, chosen: Seq<Seq<u16>>| #[trigger] gives(s, k, chosen, p) {
        let (k, chosen) = choose|k: int, chosen: Seq<Seq<u16>>| #[trigger] gives(s, k, chosen, p);
        let order = s.orders[k];
        let chain = s.chain(order);
        let d = Seq::new(chosen.len(), |q: int| s.options[chain[q]].index_of(chosen[q]));
        let f = |d: Seq<int>| s.phrase(order, d);
        let all = tuples(s.radix(order));
        assert forall|q: int| #![trigger d[q]] 0 <= q < d.len() implies 0 <= d[q] < s.radix(
            order,
        )[q] by {
            assert(s.options[chain[q]].contains(chosen[q]));
        }
        lemma_tuples_contains(s.radix(order), d);
        assert(s.chosen(order, d) =~= chosen) by {
            assert forall|q: int| 0 <= q < chosen.len() implies #[trigger] s.chosen(order, d)[q]
                == chosen[q] by {
                assert(s.options[chain[q]].contains(chosen[q]));
            }
        }
        let j = all.index_of(d);
        assert(all.map_values(f)[j] == Some(p));
        lemma_somes_contains(all.map_values(f), p);
        assert(by_order(k).contains(p));
    }
}

/// Along the chain of an order stand first the fixed slots and then the others in that order. For
/// each slot of the chain there are as many choices as it has options, and a choice takes the option
/// with its number.
pub proof fn choice_along_the_chain(s: PhraseSpace, order: Seq<int>, d: Seq<int>, p: int)
    requires
        0 <= p < s.fixed.len() + order.len(),
    ensures
        s.chain(order).len() == s.fixed.len() + order.len(),
        s.radix(order).len() == s.fixed.len() + order.len(),
        s.chosen(order, d).len() == s.fixed.len() + order.len(),
        p < s.fixed.len() ==> s.chain(order)[p] == p && s.radix(order)[p] == s.options[p].len()
            && s.chosen(order, d)[p] == s.options[p][d[p]],
        p >= s.fixed.len() ==> ({
            let si = s.fixed.len() + order[p - s.fixed.len()];
            &&& s.chain(order)[p] == si
            &&& s.radix(order)[p] == s.options[si].len()
            &&& s.chosen(order, d)[p] == s.options[si][d[p]]
        }),
{
}

/// What is tried are the phrases of the orders one after the other, and in each order those of the
/// choices one after the other, without the choices that give none.
pub proof fn phrases_come_choice_by_choice(
    s: PhraseSpace,
    order: Seq<int>,
    d: Seq<int>,
    later: Seq<Seq<int>>,
)
    ensures
        s.phrases_at(order, Seq::empty()) == Seq::<Seq<u16>>::empty(),
        s.phrases_at(order, seq![d] + later) == match s.phrase(order, d) {
            Some(p) => seq![p] + s.phrases_at(order, later),
            None => s.phrases_at(order, later),
        },
        s.phrase(order, d) == assemble(s.fixed, s.chosen(order, d)),
        s.phrases() == concat_range(
            0,
            s.orders.len() as int,
            |k: int| s.phrases_at(s.orders[k], tuples(s.radix(s.orders[k]))),
        ),
{
    let f = |d: Seq<int>| s.phrase(order, d);
    assert(Seq::<Seq<int>>::empty().map_values(f) =~= Seq::empty());
    assert((seq![d] + later).map_values(f) =~= seq![f(d)] + later.map_values(f));
    lemma_somes_concat(seq![f(d)], later.map_values(f));
    reveal_with_fuel(somes, 2);
    assert(seq![f(d)].drop_last() =~= Seq::empty());
    assert(s.phrases_at(order, seq![d] + later) =~= match s.phrase(order, d) {
        Some(p) => seq![p] + s.phrases_at(order, later),
        None => s.phrases_at(order, later),
    });
    let g = |k: int| s.phrases_at(s.orders[k], tuples(s.radix(s.orders[k])));
    lemma_concat_ext(0, s.orders.len() as int, s.phrases_of_order(), g);
}

////// Shape

/// No position is fixed twice, and all lie in the phrase.
pub open spec fn are_positions(fixed: Seq<usize>) -> bool {
    &&& forall|i: int| 0 <= i < fixed.len() ==> #[trigger] fixed[i] < 12
    &&& forall|i: int, j: int|
        0 <= i < j < fixed.len() ==> #[trigger] fixed[i] != #[trigger] fixed[j]
}

/// The words at those of the first `n` positions that are not fixed, in order.
pub open spec fn free_words(fixed: Seq<usize>, p: Seq<u16>, n: int) -> Seq<u16>
    decreases n,
{
    if n <= 0 {
        Seq::empty()
    } else if has_number(fixed, n - 1) {
        free_words(fixed, p, n - 1)
    } else {
        free_words(fixed, p, n - 1).push(p[n - 1])
    }
}

proof fn lemma_free_words_len(fixed: Seq<usize>, p: Seq<u16>, n: int)
    requires
        0 <= n,
    ensures
        free_words(fixed, p, n).len() == count(n, free_at(fixed)),
    decreases n,
{
    if n > 0 {
        lemma_free_words_len(fixed, p, n - 1);
    }
}

/// Where a word stands among those at the positions that are not fixed.
pub proof fn lemma_free_words_at(fixed: Seq<usize>, p: Seq<u16>, n: int, q: int)
    requires
        0 <= q < n,
        !has_number(fixed, q),
    ensures
        0 <= count(q, free_at(fixed)) < free_words(fixed, p, n).len(),
        free_words(fixed, p, n)[count(q, free_at(fixed))] == p[q],
    decreases n,
{
    let free = free_at(fixed);
    assert(free(q));
    lemma_free_words_len(fixed, p, n);
    lemma_free_words_len(fixed, p, n - 1);
    lemma_count_bounds(0, q, free);
    if q < n - 1 {
        lemma_free_words_at(fixed, p, n - 1, q);
    }
}

proof fn lemma_pair_value(fixed: Seq<usize>, chosen: Seq<Seq<u16>>, m: int, i: int)
    requires
        are_positions(fixed),
        0 <= i < m <= fixed.len(),
    ensures
        last_value(fixed_pairs(fixed, chosen).take(m), fixed[i] as int) == chosen[i][0],
    decreases m,
{
    let pairs = fixed_pairs(fixed, chosen);
    let now = pairs.take(m);
    assert(now.drop_last() =~= pairs.take(m - 1));
    assert(now.last() == (fixed[m - 1], chosen[m - 1][0]));
    if i < m - 1 {
        assert(fixed[i] != fixed[m - 1]);
        lemma_pair_value(fixed, chosen, m - 1, i);
    }
}

proof fn lemma_assembled_free(fixed: Seq<usize>, chosen: Seq<Seq<u16>>, p: Seq<u16>, n: int)
    requires
        assemble(fixed, chosen) == Some(p),
        0 <= n <= 12,
    ensures
        count(n, free_at(fixed)) <= word_line(
            chosen,
            fixed.len() as int,
            chosen.len() as int,
        ).len(),
        free_words(fixed, p, n) == word_line(
            chosen,
            fixed.len() as int,
            chosen.len() as int,
        ).take(count(n, free_at(fixed))),
    decreases n,
{
    let line = word_line(chosen, fixed.len() as int, chosen.len() as int);
    let free = free_at(fixed);
    lemma_count_bounds(n, 12, free);
    lemma_count_bounds(0, n, free);
    if n > 0 {
        lemma_assembled_free(fixed, chosen, p, n - 1);
        let c = count(n - 1, free);
        lemma_count_bounds(0, n - 1, free);
        if has_number(fixed, n - 1) {
            assert(!free(n - 1));
        } else {
            assert(free(n - 1));
            assert(p[n - 1] == line[c]);
            assert(line.take(c + 1) =~= line.take(c).push(line[c]));
        }
    } else {
        assert(line.take(0) =~= Seq::empty());
    }
}

/// The chosen words give a phrase exactly if each fixed slot has one word, which then stands at
/// its position, and the words of the other slots, one after the other, are what stands at the
/// remaining positions.
pub proof fn assembled_phrase(fixed: Seq<usize>, chosen: Seq<Seq<u16>>, p: Seq<u16>)
    requires
        are_positions(fixed),
        fixed.len() <= chosen.len(),
    ensures
        assemble(fixed, chosen) == Some(p) <==> {
            &&& p.len() == 12
            &&& forall|i: int|
                0 <= i < fixed.len() ==> #[trigger] chosen[i] == seq![p[fixed[i] as int]]
            &&& free_words(fixed, p, 12) == word_line(
                chosen,
                fixed.len() as int,
                chosen.len() as int,
            )
        },
{
    let line = word_line(chosen, fixed.len() as int, chosen.len() as int);
    let pairs = fixed_pairs(fixed, chosen);
    assert(pairs.take(fixed.len() as int) =~= pairs);
    if assemble(fixed, chosen) == Some(p) {
        lemma_assembled_free(fixed, chosen, p, 12);
        assert(line.take(line.len() as int) =~= line);
        assert forall|i: int| 0 <= i < fixed.len() implies #[trigger] chosen[i] == seq![
            p[fixed[i] as int],
        ] by {
            lemma_pair_value(fixed, chosen, fixed.len() as int, i);
            assert(has_number(fixed, fixed[i] as int));
            assert(fixed[i] < 12);
            assert(chosen[i] =~= seq![p[fixed[i] as int]]);
        }
    }
    if p.len() == 12 && (forall|i: int|
        0 <= i < fixed.len() ==> #[trigger] chosen[i] == seq![p[fixed[i] as int]]) && free_words(
        fixed,
        p,
        12,
    ) == line {
        lemma_free_words_len(fixed, p, 12);
        assert(assemble(fixed, chosen) is Some);
        let r = assemble(fixed, chosen)->0;
        assert forall|q: int| 0 <= q < 12 implies #[trigger] r[q] == p[q] by {
            if has_number(fixed, q) {
                let i = choose|i: int| 0 <= i < fixed.len() && #[trigger] fixed[i] == q;
                lemma_pair_value(fixed, chosen, fixed.len() as int, i);
                assert(chosen[i] == seq![p[fixed[i] as int]]);
            } else {
                lemma_free_words_at(fixed, p, 12, q);
            }
        }
        assert(r =~= p);
    }
}

proof fn lemma_count_without(n: int, p: spec_fn(int) -> bool, q: spec_fn(int) -> bool, x: int)
    requires
        forall|i: int| i != x ==> #[trigger] p(i) == q(i),
        p(x),
        !q(x),
        0 <= n,
    ensures
        count(n, p) == count(n, q) + (if 0 <= x < n {
            1int
        } else {
            0int
        }),
    decreases n,
{
    if n > 0 {
        lemma_count_without(n - 1, p, q, x);
        assert(n - 1 != x ==> p(n - 1) == q(n - 1));
    }
}

proof fn lemma_count_all(n: int, p: spec_fn(int) -> bool)
    requires
        0 <= n,
        forall|i: int| #[trigger] p(i),
    ensures
        count(n, p) == n,
    decreases n,
{
    if n > 0 {
        lemma_count_all(n - 1, p);
        assert(p(n - 1));
    }
}

proof fn lemma_open_positions(fixed: Seq<usize>)
    requires
        are_positions(fixed),
    ensures
        count(12, free_at(fixed)) == 12 - fixed.len(),
    decreases fixed.len(),
{
    let free = free_at(fixed);
    if fixed.len() == 0 {
        lemma_count_all(12, free);
    } else {
        let less = fixed.drop_last();
        let more = free_at(less);
        let x = fixed.last() as int;
        assert forall|i: int, j: int| 0 <= i < j < less.len() implies #[trigger] less[i]
            != #[trigger] less[j] by {
            assert(fixed[i] != fixed[j]);
        }
        assert forall|i: int| 0 <= i < less.len() implies #[trigger] less[i] < 12 by {
            assert(fixed[i] < 12);
        }
        lemma_open_positions(less);
        assert forall|i: int| i != x implies #[trigger] more(i) == free(i) by {
            if has_number(fixed, i) {
                let k = choose|k: int| 0 <= k < fixed.len() && #[trigger] fixed[k] == i;
                assert(less[k] == i);
            }
            if has_number(less, i) {
                let k = choose|k: int| 0 <= k < less.len() && #[trigger] less[k] == i;
                assert(fixed[k] == i);
            }
        }
        assert(fixed[fixed.len() - 1] == x);
        assert(has_number(fixed, x));
        if has_number(less, x) {
            let k = choose|k: int| 0 <= k < less.len() && #[trigger] less[k] == x;
            assert(fixed[k] != fixed[fixed.len() - 1]);
        }
        lemma_count_without(12, more, free, x);
    }
}

/// The words of the chosen slots have to be twelve in all.
pub proof fn phrase_has_twelve_words(fixed: Seq<usize>, chosen: Seq<Seq<u16>>, p: Seq<u16>)
    requires
        are_positions(fixed),
        fixed.len() <= chosen.len(),
        assemble(fixed, chosen) == Some(p),
    ensures
        word_line(chosen, 0, chosen.len() as int).len() == 12,
{
    lemma_open_positions(fixed);
    assembled_phrase(fixed, chosen, p);
    let f = |q: int| chosen[q];
    lemma_line_split(f, 0, fixed.len() as int, chosen.len() as int);
    assert forall|i: int| 0 <= i < fixed.len() implies (#[trigger] f(i)).len() == 1 by {
        assert(chosen[i] == seq![p[fixed[i] as int]]);
    }
    crate::listing::lemma_concat_len(0, fixed.len() as int, f, 1);
    lemma_free_words_len(fixed, p, 12);
}

proof fn lemma_line_split(f: spec_fn(int) -> Seq<u16>, lo: int, mid: int, hi: int)
    requires
        lo <= mid <= hi,
    ensures
        concat_range(lo, hi, f) == concat_range(lo, mid, f) + concat_range(mid, hi, f),
    decreases hi - mid,
{
    if mid < hi {
        lemma_line_split(f, lo, mid, hi - 1);
        assert(concat_range(lo, hi, f) =~= concat_range(lo, mid, f) + concat_range(mid, hi, f));
    } else {
        assert(concat_range(lo, hi, f) =~= concat_range(lo, mid, f) + concat_range(mid, hi, f));
    }
}

/// The words at the positions that are not fixed are read from left to right.
pub proof fn free_words_are_read_from_left_to_right(fixed: Seq<usize>, p: Seq<u16>, n: nat)
    requires
        n <= usize::MAX,
    ensures
        free_words(fixed, p, n as int) == Seq::new(n, |q: int| q).filter(
            |q: int| !fixed.contains(q as usize),
        ).map_values(|q: int| p[q]),
    decreases n,
{
    reveal(Seq::filter);
    let open = |q: int| !fixed.contains(q as usize);
    let word = |q: int| p[q];
    let all = Seq::new(n, |q: int| q);
    if n > 0 {
        let less = (n - 1) as nat;
        free_words_are_read_from_left_to_right(fixed, p, less);
        assert(all.drop_last() =~= Seq::new(less, |q: int| q));
        assert(all.last() == n - 1);
        number_stands_in_the_list(fixed, n - 1);
    }
    assert(free_words(fixed, p, n as int) =~= all.filter(open).map_values(word));
}

/// Words in one line are the words of the parts, one part behind the other.
pub proof fn word_line_is_flat(parts: Seq<Seq<u16>>)
    ensures
        word_line(parts, 0, parts.len() as int) == parts.flatten(),
    decreases parts.len(),
{
    let f = |p: int| parts[p];
    if parts.len() == 0 {
        assert(word_line(parts, 0, 0) =~= parts.flatten());
    } else {
        let less = parts.drop_last();
        let last = parts.len() - 1;
        word_line_is_flat(less);
        lemma_line_shift(f, |p: int| less[p], 0, last);
        parts.lemma_flatten_and_flatten_alt_are_equivalent();
        less.lemma_flatten_and_flatten_alt_are_equivalent();
        assert(parts.flatten_alt() == less.flatten_alt() + parts.last());
        assert(f(last) == parts.last());
    }
}

/// Chosen words make a phrase exactly if each fixed position gets one word and the others are as many
/// as there are positions that are not fixed. The phrase then has twelve words: at a fixed position
/// the word chosen for it, the last one where a position is fixed more than once, and at the other
/// positions the other words from left to right.
pub proof fn chosen_words_are_assembled(fixed: Seq<usize>, chosen: Seq<Seq<u16>>)
    requires
        fixed.len() <= chosen.len(),
        forall|i: int| 0 <= i < fixed.len() ==> (#[trigger] fixed[i]) < 12,
    ensures
        assemble(fixed, chosen) is Some <==> (forall|i: int|
            0 <= i < fixed.len() ==> (#[trigger] chosen[i]).len() == 1) && chosen.skip(
            fixed.len() as int,
        ).flatten().len() == Seq::new(12, |q: int| q).filter(
            |q: int| !fixed.contains(q as usize),
        ).len(),
        assemble(fixed, chosen) matches Some(p) ==> {
            &&& p.len() == 12
            &&& forall|i: int|
                0 <= i < fixed.len() && (forall|j: int|
                    i < j < fixed.len() ==> (#[trigger] fixed[j]) != fixed[i])
                    ==> p[#[trigger] fixed[i] as int] == chosen[i][0]
            &&& Seq::new(12, |q: int| q).filter(|q: int| !fixed.contains(q as usize)).map_values(
                |q: int| p[q],
            ) == chosen.skip(fixed.len() as int).flatten()
        },
{
    let m = fixed.len() as int;
    let rest = chosen.skip(m);
    let line = word_line(chosen, m, chosen.len() as int);
    lemma_line_skip(chosen, m);
    word_line_is_flat(rest);
    assert(line == rest.flatten());
    let some = Seq::<u16>::new(12, |q: int| 0u16);
    free_words_are_read_from_left_to_right(fixed, some, 12);
    lemma_free_words_len(fixed, some, 12);
    if let Some(p) = assemble(fixed, chosen) {
        free_words_are_read_from_left_to_right(fixed, p, 12);
        lemma_assembled_free(fixed, chosen, p, 12);
        assert(line.take(line.len() as int) =~= line);
        let pairs = fixed_pairs(fixed, chosen);
        assert forall|i: int|
            0 <= i < fixed.len() && (forall|j: int|
                i < j < fixed.len() ==> (#[trigger] fixed[j])
                    != fixed[i]) implies p[#[trigger] fixed[i] as int] == chosen[i][0] by {
            assert forall|l: int| i < l < pairs.len() implies (#[trigger] pairs[l]).0
                != pairs[i].0 by {
                assert(fixed[l] != fixed[i]);
            }
            lemma_last_value(pairs, i);
            assert(has_number(fixed, fixed[i] as int));
        }
    }
}

////// Slot orders

/// Where the order of the slots is not kept, every order of them is tried, and where it is kept
/// only the one in which they are written.
pub proof fn slot_orders_are_all(n: nat, keep_token_order: bool, order: Seq<int>)
    ensures
        slot_orders(n, keep_token_order).contains(order) <==> if keep_token_order {
            order == iota(n)
        } else {
            order.to_multiset() == iota(n).to_multiset()
        },
{
    broadcast use vstd::seq_lib::group_to_multiset_ensures;

    let all = slot_orders(n, keep_token_order);
    if keep_token_order || n <= 1 {
        assert(all[0] == iota(n));
        if !keep_token_order && order.to_multiset() == iota(n).to_multiset() {
            assert(order.len() == order.to_multiset().len());
            assert(iota(n).len() == iota(n).to_multiset().len());
            if n == 1 {
                assert(order.contains(order[0]));
                assert(iota(n).to_multiset().count(order[0]) > 0);
                assert(iota(n).contains(order[0]));
            }
            assert(order =~= iota(n));
        }
    } else {
        if all.contains(order) {
            lemma_permutations_sound(iota(n), order);
        }
        if order.to_multiset() == iota(n).to_multiset() {
            lemma_permutations_complete(iota(n), order);
        }
    }
}

////// From slots to phrases

/// The phrase positions of these slots, from 0.
pub open spec fn positions_of(fixed: Seq<SlotView>) -> Seq<usize> {
    fixed.map_values(|s: SlotView| (s.position->0 - 1) as usize)
}

/// In this order of the free slots, these word sequences may stand for them and are, one after the
/// other, what stands at the positions that are left.
pub open spec fn fills(
    fixed: Seq<SlotView>,
    free: Seq<SlotView>,
    keep_word_order: bool,
    list: Seq<Seq<char>>,
    order: Seq<int>,
    parts: Seq<Seq<u16>>,
    p: Seq<u16>,
) -> bool {
    &&& parts.len() == order.len()
    &&& forall|j: int|
        0 <= j < parts.len() ==> slot_options(
            free[order[j]].alts,
            list,
            keep_word_order,
        ).contains(#[trigger] parts[j])
    &&& free_words(positions_of(fixed), p, 12) == word_line(parts, 0, parts.len() as int)
}

/// Each slot with a position has there a word that it may stand for, and in some order of the other
/// slots, or in the written one where that is kept, what they may stand for fills the positions that
/// are left.
pub open spec fn is_slot_phrase(
    fixed: Seq<SlotView>,
    free: Seq<SlotView>,
    keep_token_order: bool,
    keep_word_order: bool,
    list: Seq<Seq<char>>,
    p: Seq<u16>,
) -> bool {
    &&& p.len() == 12
    &&& forall|i: int|
        0 <= i < fixed.len() ==> slot_options(
            (#[trigger] fixed[i]).alts,
            list,
            keep_word_order,
        ).contains(seq![p[positions_of(fixed)[i] as int]])
    &&& exists|order: Seq<int>, parts: Seq<Seq<u16>>|
        slot_orders(free.len(), keep_token_order).contains(order) && #[trigger] fills(
            fixed,
            free,
            keep_word_order,
            list,
            order,
            parts,
            p,
        )
}

proof fn lemma_slot_phrase_sound(
    fixed: Seq<SlotView>,
    free: Seq<SlotView>,
    keep_token_order: bool,
    keep_word_order: bool,
    list: Seq<Seq<char>>,
    p: Seq<u16>,
    k: int,
    chosen: Seq<Seq<u16>>,
)
    requires
        are_positions(positions_of(fixed)),
        gives(
            space_of(fixed, free, keep_token_order, keep_word_order, list),
            k,
            chosen,
            p,
        ),
    ensures
        is_slot_phrase(fixed, free, keep_token_order, keep_word_order, list, p),
{
    let s = space_of(fixed, free, keep_token_order, keep_word_order, list);
    let at = positions_of(fixed);
    let m = fixed.len() as int;
    let order = s.orders[k];
    let parts = chosen.skip(m);
    assert(s.orders.contains(order));
    lemma_order_entries(free.len(), keep_token_order, order);
    assembled_phrase(at, chosen, p);
    lemma_line_skip(chosen, m);
    assert forall|i: int| 0 <= i < m implies slot_options(
        (#[trigger] fixed[i]).alts,
        list,
        keep_word_order,
    ).contains(seq![p[at[i] as int]]) by {
        assert(s.chain(order)[i] == i);
        assert((fixed + free)[i] == fixed[i]);
        assert(s.options[s.chain(order)[i]].contains(chosen[i]));
    }
    assert forall|j: int| 0 <= j < parts.len() implies slot_options(
        free[order[j]].alts,
        list,
        keep_word_order,
    ).contains(#[trigger] parts[j]) by {
        assert(parts[j] == chosen[m + j]);
        assert(s.chain(order)[m + j] == m + order[j]);
        assert((fixed + free)[m + order[j]] == free[order[j]]);
        assert(s.options[s.chain(order)[m + j]].contains(chosen[m + j]));
    }
    assert(fills(fixed, free, keep_word_order, list, order, parts, p));
}

proof fn lemma_slot_phrase_complete(
    fixed: Seq<SlotView>,
    free: Seq<SlotView>,
    keep_token_order: bool,
    keep_word_order: bool,
    list: Seq<Seq<char>>,
    p: Seq<u16>,
) -> (r: (int, Seq<Seq<u16>>))
    requires
        are_positions(positions_of(fixed)),
        is_slot_phrase(fixed, free, keep_token_order, keep_word_order, list, p),
    ensures
        gives(
            space_of(fixed, free, keep_token_order, keep_word_order, list),
            r.0,
            r.1,
            p,
        ),
{
    let s = space_of(fixed, free, keep_token_order, keep_word_order, list);
    let at = positions_of(fixed);
    let m = fixed.len() as int;
    let (order, parts) = choose|order: Seq<int>, parts: Seq<Seq<u16>>|
        slot_orders(free.len(), keep_token_order).contains(order) && #[trigger] fills(
            fixed,
            free,
            keep_word_order,
            list,
            order,
            parts,
            p,
        );
    let k = s.orders.index_of(order);
    lemma_order_entries(free.len(), keep_token_order, order);
    let chosen = Seq::new(fixed.len(), |i: int| seq![p[at[i] as int]]) + parts;
    assert(chosen.skip(m) =~= parts);
    lemma_line_skip(chosen, m);
    assembled_phrase(at, chosen, p);
    assert forall|q: int| 0 <= q < chosen.len() implies s.options[s.chain(
        order,
    )[q]].contains(#[trigger] chosen[q]) by {
        if q < m {
            assert(s.chain(order)[q] == q);
            assert((fixed + free)[q] == fixed[q]);
        } else {
            assert(chosen[q] == parts[q - m]);
            assert(s.chain(order)[q] == m + order[q - m]);
            assert((fixed + free)[m + order[q - m]] == free[order[q - m]]);
        }
    }
    (k, chosen)
}

/// The phrases that are tried for a choice of slots are exactly those in which every slot with a
/// position stands there, and the other slots fill the positions that are left.
pub proof fn slot_phrases_are_all(
    fixed: Seq<SlotView>,
    free: Seq<SlotView>,
    keep_token_order: bool,
    keep_word_order: bool,
    list: Seq<Seq<char>>,
    p: Seq<u16>,
)
    requires
        are_positions(positions_of(fixed)),
    ensures
        space_of(fixed, free, keep_token_order, keep_word_order, list).phrases().contains(p)
            <==> is_slot_phrase(fixed, free, keep_token_order, keep_word_order, list, p),
{
    let s = space_of(fixed, free, keep_token_order, keep_word_order, list);
    phrases_are_all(s, p);
    if s.phrases().contains(p) {
        let (k, chosen) = choose|k: int, chosen: Seq<Seq<u16>>| #[trigger] gives(s, k, chosen, p);
        lemma_slot_phrase_sound(
            fixed,
            free,
            keep_token_order,
            keep_word_order,
            list,
            p,
            k,
            chosen,
        );
    }
    if is_slot_phrase(fixed, free, keep_token_order, keep_word_order, list, p) {
        let (k, chosen) = lemma_slot_phrase_complete(
            fixed,
            free,
            keep_token_order,
            keep_word_order,
            list,
            p,
        );
        assert(gives(s, k, chosen, p));
    }
}

/// An order of the slots numbers slots.
pub proof fn lemma_order_entries(n: nat, keep_token_order: bool, order: Seq<int>)
    requires
        slot_orders(n, keep_token_order).contains(order),
    ensures
        order.len() == n,
        forall|j: int| 0 <= j < order.len() ==> 0 <= #[trigger] order[j] < n,
{
    if keep_token_order || n <= 1 {
        let i = slot_orders(n, keep_token_order).index_of(order);
        assert(order == iota(n));
    } else {
        crate::candidates::lemma_iota_ordering(n, order);
    }
}

proof fn lemma_line_skip(chosen: Seq<Seq<u16>>, m: int)
    requires
        0 <= m <= chosen.len(),
    ensures
        word_line(chosen, m, chosen.len() as int) == word_line(
            chosen.skip(m),
            0,
            chosen.len() - m,
        ),
    decreases chosen.len() - m,
{
    let f = |q: int| chosen[q];
    let g = |q: int| chosen.skip(m)[q];
    lemma_line_shift(f, g, m, chosen.len() - m);
}

proof fn lemma_line_shift(f: spec_fn(int) -> Seq<u16>, g: spec_fn(int) -> Seq<u16>, m: int, n: int)
    requires
        0 <= n,
        forall|q: int| 0 <= q < n ==> #[trigger] g(q) == f(m + q),
    ensures
        concat_range(m, m + n, f) == concat_range(0, n, g),
    decreases n,
{
    if n > 0 {
        lemma_line_shift(f, g, m, n - 1);
        assert(g(n - 1) == f(m + n - 1));
    }
}

/// The phrases that are tried for a choice of slots have twelve words. Each slot with a position has
/// there, counting from 1, a word that is one of its options. The other slots are placed in some
/// order, or in the given one where that is kept; an option of each of them, one behind the other,
/// makes up the words at the positions that no slot claims. Every such phrase is tried.
pub proof fn phrases_of_slots(
    fixed: Seq<SlotView>,
    free: Seq<SlotView>,
    keep_token_order: bool,
    keep_word_order: bool,
    list: Seq<Seq<char>>,
    p: Seq<u16>,
)
    requires
        forall|i: int|
            0 <= i < fixed.len() ==> ((#[trigger] fixed[i]).position matches Some(at) && 1 <= at
                <= 12),
        forall|i: int, j: int|
            0 <= i < j < fixed.len() ==> (#[trigger] fixed[i]).position != (
            #[trigger] fixed[j]).position,
    ensures
        space_of(fixed, free, keep_token_order, keep_word_order, list).phrases().contains(p) <==> {
            &&& p.len() == 12
            &&& forall|i: int|
                0 <= i < fixed.len() ==> slot_options(
                    (#[trigger] fixed[i]).alts,
                    list,
                    keep_word_order,
                ).contains(seq![p[fixed[i].position->0 - 1]])
            &&& exists|order: Seq<int>, parts: Seq<Seq<u16>>|
                #![trigger order.len(), parts.flatten()]
                order.to_multiset() == Seq::new(free.len(), |i: int| i).to_multiset() && (
                keep_token_order ==> order == Seq::new(free.len(), |i: int| i)) && parts.len()
                    == order.len() && (forall|j: int|
                    0 <= j < parts.len() ==> slot_options(
                        free[order[j]].alts,
                        list,
                        keep_word_order,
                    ).contains(#[trigger] parts[j])) && parts.flatten() == Seq::new(
                    12,
                    |q: int| q,
                ).filter(
                    |q: int|
                        !fixed.map_values(|s: SlotView| (s.position->0 - 1) as usize).contains(
                            q as usize,
                        ),
                ).map_values(|q: int| p[q])
        },
{
    broadcast use vstd::seq_lib::group_to_multiset_ensures;

    let at = positions_of(fixed);
    let open = Seq::new(12, |q: int| q).filter(
        |q: int|
            !fixed.map_values(|s: SlotView| (s.position->0 - 1) as usize).contains(q as usize),
    ).map_values(|q: int| p[q]);
    let n = free.len();
    assert(Seq::new(n, |i: int| i) =~= iota(n));
    assert(are_positions(at)) by {
        assert forall|i: int| 0 <= i < at.len() implies #[trigger] at[i] < 12 by {
            assert(fixed[i].position is Some);
        }
        assert forall|i: int, j: int| 0 <= i < j < at.len() implies #[trigger] at[i]
            != #[trigger] at[j] by {
            assert(fixed[i].position != fixed[j].position);
        }
    }
    slot_phrases_are_all(fixed, free, keep_token_order, keep_word_order, list, p);
    free_words_are_read_from_left_to_right(at, p, 12);
    assert(free_words(at, p, 12) == open) by {
        let a = |q: int| !at.contains(q as usize);
        let b = |q: int|
            !fixed.map_values(|s: SlotView| (s.position->0 - 1) as usize).contains(q as usize);
        assert(a =~= b);
    }
    assert forall|i: int| 0 <= i < fixed.len() implies at[i] as int == (
    #[trigger] fixed[i]).position->0 - 1 by {
        assert(fixed[i].position is Some);
    }
    if is_slot_phrase(fixed, free, keep_token_order, keep_word_order, list, p) {
        let (order, parts) = choose|order: Seq<int>, parts: Seq<Seq<u16>>|
            slot_orders(n, keep_token_order).contains(order) && #[trigger] fills(
                fixed,
                free,
                keep_word_order,
                list,
                order,
                parts,
                p,
            );
        slot_orders_are_all(n, keep_token_order, order);
        word_line_is_flat(parts);
        assert(order.len() == parts.len());
        assert(parts.flatten() == open);
    }
    if p.len() == 12 && (forall|i: int|
        0 <= i < fixed.len() ==> slot_options(
            (#[trigger] fixed[i]).alts,
            list,
            keep_word_order,
        ).contains(seq![p[fixed[i].position->0 - 1]])) && exists|
        order: Seq<int>,
        parts: Seq<Seq<u16>>,
    |
        #![trigger order.len(), parts.flatten()]
        order.to_multiset() == iota(n).to_multiset() && (keep_token_order ==> order == iota(n))
            && parts.len() == order.len() && (forall|j: int|
            0 <= j < parts.len() ==> slot_options(
                free[order[j]].alts,
                list,
                keep_word_order,
            ).contains(#[trigger] parts[j])) && parts.flatten() == open {
        let (order, parts) = choose|order: Seq<int>, parts: Seq<Seq<u16>>|
            #![trigger order.len(), parts.flatten()]
            order.to_multiset() == iota(n).to_multiset() && (keep_token_order ==> order == iota(n))
                && parts.len() == order.len() && (forall|j: int|
                0 <= j < parts.len() ==> slot_options(
                    free[order[j]].alts,
                    list,
                    keep_word_order,
                ).contains(#[trigger] parts[j])) && parts.flatten() == open;
        slot_orders_are_all(n, keep_token_order, order);
        word_line_is_flat(parts);
        assert(fills(fixed, free, keep_word_order, list, order, parts, p));
        assert(is_slot_phrase(fixed, free, keep_token_order, keep_word_order, list, p));
    }
}

/// What is tried for fixed and free slots: the fixed positions are those of the fixed slots, counted
/// from 0; every slot, the fixed ones first, has its own options; and the free slots are placed in
/// all of their orders.
pub proof fn space_of_the_slots(
    fixed: Seq<SlotView>,
    free: Seq<SlotView>,
    keep_token_order: bool,
    keep_word_order: bool,
    list: Seq<Seq<char>>,
    i: int,
)
    requires
        forall|k: int|
            0 <= k < fixed.len() ==> ((#[trigger] fixed[k]).position matches Some(p) && p > 0),
    ensures
        ({
            let s = space_of(fixed, free, keep_token_order, keep_word_order, list);
            &&& s.fixed.len() == fixed.len()
            &&& s.options.len() == fixed.len() + free.len()
            &&& s.orders == slot_orders(free.len(), keep_token_order)
            &&& 0 <= i < fixed.len() ==> s.fixed[i] + 1 == fixed[i].position->0
            &&& 0 <= i < fixed.len() ==> s.options[i] == slot_options(
                fixed[i].alts,
                list,
                keep_word_order,
            )
            &&& 0 <= i < free.len() ==> s.options[fixed.len() + i] == slot_options(
                free[i].alts,
                list,
                keep_word_order,
            )
        }),
{
    if 0 <= i < fixed.len() {
        assert(fixed[i].position is Some);
        assert((fixed + free)[i] == fixed[i]);
    }
    if 0 <= i < free.len() {
        assert((fixed + free)[fixed.len() + i] == free[i]);
    }
}

/// A slot has the candidates of its alternatives as options, those of one alternative behind those
/// of the one before it.
pub proof fn options_come_alternative_by_alternative(
    alts: Seq<Seq<TokenView>>,
    more: Seq<TokenView>,
    list: Seq<Seq<char>>,
    keep_word_order: bool,
)
    ensures
        slot_options(Seq::empty(), list, keep_word_order) == Seq::<Seq<u16>>::empty(),
        slot_options(alts.push(more), list, keep_word_order) == slot_options(
            alts,
            list,
            keep_word_order,
        ) + alternative_candidates(more, list, keep_word_order),
{
    let now = alts.push(more);
    let f = |a: int| alternative_candidates(now[a], list, keep_word_order);
    let g = |a: int| alternative_candidates(alts[a], list, keep_word_order);
    lemma_concat_ext(0, alts.len() as int, f, g);
    assert(f(alts.len() as int) == alternative_candidates(more, list, keep_word_order));
}

////// Kept order

proof fn lemma_single_line(parts: Seq<Seq<u16>>, n: int)
    requires
        0 <= n <= parts.len(),
        forall|j: int| 0 <= j < parts.len() ==> (#[trigger] parts[j]).len() == 1,
    ensures
        word_line(parts, 0, n).len() == n,
        forall|j: int| 0 <= j < n ==> #[trigger] word_line(parts, 0, n)[j] == parts[j][0],
    decreases n,
{
    let f = |q: int| parts[q];
    if n > 0 {
        lemma_single_line(parts, n - 1);
        assert(f(n - 1) == parts[n - 1]);
        assert(word_line(parts, 0, n) == word_line(parts, 0, n - 1) + parts[n - 1]);
    }
}

proof fn lemma_all_free_words(p: Seq<u16>, n: int)
    requires
        0 <= n <= p.len(),
    ensures
        free_words(Seq::empty(), p, n) == p.take(n),
    decreases n,
{
    if n > 0 {
        lemma_all_free_words(p, n - 1);
        assert(p.take(n) =~= p.take(n - 1).push(p[n - 1]));
    } else {
        assert(p.take(0) =~= Seq::empty());
    }
}

/// Where the order of the slots is kept, all of them are used and every alternative is a single
/// word, each slot stands at the position of its line.
pub proof fn kept_order_fixes_positions(
    slots: Seq<SlotView>,
    keep_word_order: bool,
    list: Seq<Seq<char>>,
    p: Seq<u16>,
    i: int,
)
    requires
        list.len() <= u16::MAX,
        forall|s: int, a: int|
            0 <= s < slots.len() && 0 <= a < slots[s].alts.len() ==> (
            #[trigger] slots[s].alts[a]).len() == 1,
        space_of(Seq::empty(), slots, true, keep_word_order, list).phrases().contains(p),
        0 <= i < slots.len(),
    ensures
        p.len() == 12,
        slots.len() == 12,
        slot_options(slots[i].alts, list, keep_word_order).contains(seq![p[i]]),
{
    let none = Seq::<SlotView>::empty();
    assert(positions_of(none) =~= Seq::empty());
    slot_phrases_are_all(none, slots, true, keep_word_order, list, p);
    let (order, parts) = choose|order: Seq<int>, parts: Seq<Seq<u16>>|
        slot_orders(slots.len(), true).contains(order) && #[trigger] fills(
            none,
            slots,
            keep_word_order,
            list,
            order,
            parts,
            p,
        );
    slot_orders_are_all(slots.len(), true, order);
    assert forall|j: int| 0 <= j < parts.len() implies (#[trigger] parts[j]).len() == 1 by {
        assert(order[j] == j);
        let alts = slots[order[j]].alts;
        assert forall|a: int| 0 <= a < alts.len() implies (#[trigger] alts[a]).len()
            <= usize::MAX by {
            assert(slots[j].alts[a].len() == 1);
        }
        slot_options_are_all(alts, list, keep_word_order, parts[j]);
        let a = choose|a: int|
            0 <= a < alts.len() && is_candidate(
                #[trigger] alts[a],
                list,
                keep_word_order,
                parts[j],
            );
        assert(slots[j].alts[a].len() == 1);
    }
    lemma_single_line(parts, parts.len() as int);
    lemma_all_free_words(p, 12);
    assert(p.take(12) =~= p);
    assert(p == word_line(parts, 0, parts.len() as int));
    assert(order[i] == i);
    assert(slot_options(slots[order[i]].alts, list, keep_word_order).contains(parts[i]));
    assert(p[i] == parts[i][0]);
    assert(parts[i] =~= seq![p[i]]);
}

////// Advancing

/// How many options each slot has.
pub open spec fn option_sizes(s: PhraseSpace) -> Seq<int> {
    s.options.map_values(|o: Seq<Seq<u16>>| o.len() as int)
}

/// A new iterator counts through the choices of one option for each slot, whose number is the
/// product of the numbers of options. Every step but the last succeeds and leads to a choice that
/// was not there before; the last one fails and leads back to the first choice, and so to the
/// phrase of the first choice.
pub proof fn advancing_visits_every_choice_once(
    fixed: Seq<SlotView>,
    free: Seq<SlotView>,
    keep_token_order: bool,
    keep_word_order: bool,
    list: Seq<Seq<char>>,
)
    requires
        forall|i: int|
            0 <= i < fixed.len() ==> slot_options(
                (#[trigger] fixed[i]).alts,
                list,
                keep_word_order,
            ).len() > 0,
        forall|i: int|
            0 <= i < free.len() ==> slot_options(
                (#[trigger] free[i]).alts,
                list,
                keep_word_order,
            ).len() > 0,
    ensures
        ({
            let s = space_of(fixed, free, keep_token_order, keep_word_order, list);
            let radix = s.radix(s.orders[0]);
            let n = product(option_sizes(s));
            &&& s.orders.len() > 0
            &&& radix == option_sizes(s)
            &&& n > 0
            &&& nth_digits(radix, 0) == zeros(s.options.len())
            &&& forall|k: nat| k + 1 < n ==> next_digits(radix, #[trigger] nth_digits(radix, k)).1
            &&& forall|k: nat| k < n ==> within(radix, #[trigger] nth_digits(radix, k))
            &&& forall|j: nat, k: nat|
                j < k < n ==> #[trigger] nth_digits(radix, j) != #[trigger] nth_digits(radix, k)
            &&& !next_digits(radix, nth_digits(radix, (n - 1) as nat)).1
            &&& nth_digits(radix, n as nat) == zeros(s.options.len())
            &&& s.phrase(s.orders[0], nth_digits(radix, n as nat)) == s.phrase(
                s.orders[0],
                zeros(s.options.len()),
            )
        }),
{
    let s = space_of(fixed, free, keep_token_order, keep_word_order, list);
    lemma_permutations_first(iota(free.len()));
    let order = s.orders[0];
    assert(order == iota(free.len()));
    let radix = s.radix(order);
    let sizes = option_sizes(s);
    let slots = fixed + free;
    assert forall|i: int| 0 <= i < s.options.len() implies #[trigger] radix[i] == sizes[i]
        && sizes[i] > 0 by {
        assert(s.chain(order)[i] == i);
        assert(s.options[i] == slot_options(slots[i].alts, list, keep_word_order));
        if i < fixed.len() {
            assert(slots[i] == fixed[i]);
        } else {
            assert(slots[i] == free[i - fixed.len()]);
        }
    }
    assert(radix =~= sizes);
    counting_visits_everything_once(radix);
    assert forall|k: nat| k < product(radix) implies within(
        radix,
        #[trigger] nth_digits(radix, k),
    ) by {
        assert(tuples(radix).contains(tuples(radix)[k as int]));
        lemma_tuples_contains(radix, nth_digits(radix, k));
    }
}

} // verus!
