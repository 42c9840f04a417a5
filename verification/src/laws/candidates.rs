//! Laws of the candidates of a slot.
use vstd::arithmetic::power::pow;
use vstd::prelude::*;

use crate::candidates::{
    alternative_candidates, candidates_of_order, code_of, code_tuples, codes, filled, layout_fits,
    lemma_counts, lemma_missing_numbers, lemma_pinned_keys, missing_at, missing_positions, movable_at,
    movable_codes, pinned_codes, word_orders,
};
use crate::enumeration::iota;
use crate::listing::{
    concat_range, fact, lemma_concat_contains, lemma_concat_len, lemma_permutations_complete,
    lemma_permutations_len, lemma_permutations_map, lemma_permutations_sound, lemma_tuples_contains,
    lemma_tuples_len, permutations, product, tuples, within,
};
use crate::phrases::slot_options;
use crate::places::{
    count, has_key, has_number, last_value, lemma_count_bounds, number_stands_in_the_list,
};
use crate::tokens::{lemma_position, TokenView};

verus! {

/// The entries of `c` that stand for words to permute, in order.
pub open spec fn at_words(alt: Seq<TokenView>, c: Seq<u16>) -> Seq<u16>
    decreases alt.len(),
{
    if alt.len() == 0 {
        Seq::empty()
    } else if alt.last() is Word {
        at_words(alt.drop_last(), c.drop_last()).push(c.last())
    } else {
        at_words(alt.drop_last(), c.drop_last())
    }
}

/// The entries of `c` that stand for unknown words, in order.
pub open spec fn at_missing(alt: Seq<TokenView>, c: Seq<u16>) -> Seq<u16>
    decreases alt.len(),
{
    if alt.len() == 0 {
        Seq::empty()
    } else if alt.last() is Missing {
        at_missing(alt.drop_last(), c.drop_last()).push(c.last())
    } else {
        at_missing(alt.drop_last(), c.drop_last())
    }
}

////// Sorting the words of an alternative

/// The words of an alternative that may be permuted, pinned words and unknown words are told apart:
/// the numbers to permute are, in order, those of the unquoted words; each pinned word is listed
/// with its place and its number; and the unknown words are listed by their places.
pub proof fn words_are_sorted_out(alt: Seq<TokenView>, list: Seq<Seq<char>>)
    requires
        alt.len() <= usize::MAX,
        list.len() <= 65536,
        forall|i: int|
            0 <= i < alt.len() ==> match #[trigger] alt[i] {
                TokenView::Word(w) => list.contains(w),
                TokenView::PinnedWord(w) => list.contains(w),
                TokenView::Missing => true,
            },
    ensures
        movable_codes(alt, list).len() == alt.filter(|t: TokenView| t is Word).len(),
        forall|k: int|
            0 <= k < movable_codes(alt, list).len() ==> (#[trigger] movable_codes(alt, list)[k])
                < list.len() && TokenView::Word(list[movable_codes(alt, list)[k] as int])
                == alt.filter(|t: TokenView| t is Word)[k],
        forall|k: int|
            0 <= k < pinned_codes(alt, list).len() ==> (#[trigger] pinned_codes(alt, list)[k]).0
                < alt.len() && pinned_codes(alt, list)[k].1 < list.len() && alt[pinned_codes(
                alt,
                list,
            )[k].0 as int] == TokenView::PinnedWord(list[pinned_codes(alt, list)[k].1 as int]),
        forall|k: int, l: int|
            0 <= k < l < pinned_codes(alt, list).len() ==> (#[trigger] pinned_codes(
                alt,
                list,
            )[k]).0 < (#[trigger] pinned_codes(alt, list)[l]).0,
        forall|i: int|
            0 <= i < alt.len() && #[trigger] alt[i] is PinnedWord ==> exists|k: int|
                0 <= k < pinned_codes(alt, list).len() && (#[trigger] pinned_codes(
                    alt,
                    list,
                )[k]).0 == i,
        forall|k: int|
            0 <= k < missing_positions(alt).len() ==> (#[trigger] missing_positions(alt)[k])
                < alt.len() && alt[missing_positions(alt)[k] as int] is Missing,
        forall|k: int, l: int|
            0 <= k < l < missing_positions(alt).len() ==> #[trigger] missing_positions(alt)[k]
                < #[trigger] missing_positions(alt)[l],
        forall|i: int|
            0 <= i < alt.len() && #[trigger] alt[i] is Missing ==> missing_positions(alt).contains(
                i as usize,
            ),
    decreases alt.len(),
{
    reveal(Seq::filter);
    let is_word = |t: TokenView| t is Word;
    let movable = movable_codes(alt, list);
    let pinned = pinned_codes(alt, list);
    let miss = missing_positions(alt);
    if alt.len() > 0 {
        let init = alt.drop_last();
        let last = alt.len() - 1;
        assert forall|i: int| 0 <= i < init.len() implies match #[trigger] init[i] {
            TokenView::Word(w) => list.contains(w),
            TokenView::PinnedWord(w) => list.contains(w),
            TokenView::Missing => true,
        } by {
            assert(init[i] == alt[i]);
        }
        words_are_sorted_out(init, list);
        assert(alt[last] == alt.last());
        match alt.last() {
            TokenView::Word(w) => lemma_position(list, w),
            TokenView::PinnedWord(w) => lemma_position(list, w),
            TokenView::Missing => {},
        }
        let m0 = movable_codes(init, list);
        let p0 = pinned_codes(init, list);
        let s0 = missing_positions(init);
        assert forall|k: int| 0 <= k < movable.len() implies (#[trigger] movable[k]) < list.len()
            && TokenView::Word(list[movable[k] as int]) == alt.filter(is_word)[k] by {
            if k < m0.len() {
                assert(m0[k] == movable[k]);
            }
        }
        assert forall|k: int| 0 <= k < pinned.len() implies (#[trigger] pinned[k]).0 < alt.len()
            && pinned[k].1 < list.len() && alt[pinned[k].0 as int] == TokenView::PinnedWord(
            list[pinned[k].1 as int],
        ) by {
            if k < p0.len() {
                assert(p0[k] == pinned[k]);
                assert(init[p0[k].0 as int] == alt[pinned[k].0 as int]);
            }
        }
        assert forall|k: int, l: int| 0 <= k < l < pinned.len() implies (#[trigger] pinned[k]).0 < (
        #[trigger] pinned[l]).0 by {
            assert(p0[k] == pinned[k]);
            if l < p0.len() {
                assert(p0[l] == pinned[l]);
            }
        }
        assert forall|i: int| 0 <= i < alt.len() && #[trigger] alt[i] is PinnedWord implies exists|
            k: int,
        | 0 <= k < pinned.len() && (#[trigger] pinned[k]).0 == i by {
            if i < init.len() {
                assert(init[i] is PinnedWord);
                let k = choose|k: int| 0 <= k < p0.len() && (#[trigger] p0[k]).0 == i;
                assert(pinned[k].0 == i);
            } else {
                assert(pinned[pinned.len() - 1].0 == i);
            }
        }
        assert forall|k: int| 0 <= k < miss.len() implies (#[trigger] miss[k]) < alt.len()
            && alt[miss[k] as int] is Missing by {
            if k < s0.len() {
                assert(s0[k] == miss[k]);
                assert(init[s0[k] as int] == alt[miss[k] as int]);
            }
        }
        assert forall|k: int, l: int| 0 <= k < l < miss.len() implies #[trigger] miss[k]
            < #[trigger] miss[l] by {
            assert(s0[k] == miss[k]);
            if l < s0.len() {
                assert(s0[l] == miss[l]);
            }
        }
        assert forall|i: int| 0 <= i < alt.len() && #[trigger] alt[i]
            is Missing implies miss.contains(i as usize) by {
            if i < init.len() {
                assert(init[i] is Missing);
                let k = s0.index_of(i as usize);
                assert(miss[k] == i as usize);
            } else {
                assert(miss[miss.len() - 1] == i as usize);
            }
        }
    }
}

/// What may stand for an alternative: every pinned word where it is, some word of the list for
/// every unknown one, and the other words in their order or, where that is not kept, in any order.
pub open spec fn is_candidate(
    alt: Seq<TokenView>,
    list: Seq<Seq<char>>,
    keep_word_order: bool,
    c: Seq<u16>,
) -> bool {
    &&& c.len() == alt.len()
    &&& forall|i: int|
        0 <= i < c.len() ==> (alt[i] matches TokenView::PinnedWord(w) ==> #[trigger] c[i]
            == code_of(list, w))
    &&& forall|i: int| 0 <= i < c.len() && alt[i] is Missing ==> (#[trigger] c[i]) < list.len()
    &&& if keep_word_order {
        at_words(alt, c) == movable_codes(alt, list)
    } else {
        at_words(alt, c).to_multiset() == movable_codes(alt, list).to_multiset()
    }
}

proof fn lemma_at_len(alt: Seq<TokenView>, list: Seq<Seq<char>>, c: Seq<u16>)
    requires
        c.len() == alt.len(),
    ensures
        at_words(alt, c).len() == movable_codes(alt, list).len(),
        at_missing(alt, c).len() == missing_positions(alt).len(),
    decreases alt.len(),
{
    if alt.len() > 0 {
        lemma_at_len(alt.drop_last(), list, c.drop_last());
    }
}

/// Where an entry of a candidate stands among those of its kind.
pub proof fn lemma_at_index(alt: Seq<TokenView>, list: Seq<Seq<char>>, c: Seq<u16>, q: int)
    requires
        c.len() == alt.len(),
        0 <= q < alt.len(),
    ensures
        alt[q] is Word ==> movable_codes(alt.take(q), list).len() < at_words(alt, c).len()
            && at_words(alt, c)[movable_codes(alt.take(q), list).len() as int] == c[q],
        alt[q] is Missing ==> missing_positions(alt.take(q)).len() < at_missing(alt, c).len()
            && at_missing(alt, c)[missing_positions(alt.take(q)).len() as int] == c[q],
    decreases alt.len(),
{
    let init = alt.drop_last();
    let ci = c.drop_last();
    lemma_at_len(init, list, ci);
    if q < alt.len() - 1 {
        lemma_at_index(init, list, ci, q);
        assert(init.take(q) =~= alt.take(q));
    } else {
        assert(alt.take(q) =~= init);
    }
}

proof fn lemma_pinned_value(alt: Seq<TokenView>, list: Seq<Seq<char>>, q: int)
    requires
        alt.len() <= usize::MAX,
        0 <= q < alt.len(),
        alt[q] is PinnedWord,
    ensures
        last_value(pinned_codes(alt, list), q) == code_of(list, alt[q]->PinnedWord_0),
    decreases alt.len(),
{
    let init = alt.drop_last();
    let now = pinned_codes(alt, list);
    if q < alt.len() - 1 {
        lemma_pinned_value(init, list, q);
        if alt.last() is PinnedWord {
            assert(now.drop_last() =~= pinned_codes(init, list));
            assert(now.last().0 == alt.len() - 1);
        }
    }
}

/// The words and the unknown words of a candidate that is filled in can be read off it again.
pub proof fn lemma_filled_reads_back(
    alt: Seq<TokenView>,
    list: Seq<Seq<char>>,
    kp: Seq<u16>,
    mv: Seq<u16>,
    n: int,
)
    requires
        0 <= n <= alt.len() <= usize::MAX,
        kp.len() == movable_codes(alt, list).len(),
        mv.len() == missing_positions(alt).len(),
    ensures
        ({
            let c = filled(
                kp,
                pinned_codes(alt, list),
                mv,
                missing_positions(alt),
                alt.len(),
            );
            let a = movable_codes(alt.take(n), list).len() as int;
            let b = missing_positions(alt.take(n)).len() as int;
            &&& a <= kp.len()
            &&& b <= mv.len()
            &&& at_words(alt.take(n), c.take(n)) == kp.take(a)
            &&& at_missing(alt.take(n), c.take(n)) == mv.take(b)
        }),
    decreases n,
{
    let pinned = pinned_codes(alt, list);
    let miss = missing_positions(alt);
    let c = filled(kp, pinned, mv, miss, alt.len());
    let whole = alt.len() as int;
    lemma_counts(alt, list, n);
    lemma_counts(alt, list, whole);
    lemma_count_bounds(n, whole, missing_at(pinned, miss));
    lemma_count_bounds(n, whole, movable_at(pinned, miss));
    assert(alt.take(whole) =~= alt);
    if n > 0 {
        lemma_filled_reads_back(alt, list, kp, mv, n - 1);
        lemma_counts(alt, list, n - 1);
        lemma_pinned_keys(alt, list);
        lemma_missing_numbers(alt);
        assert(alt.take(n).drop_last() =~= alt.take(n - 1));
        assert(c.take(n).drop_last() =~= c.take(n - 1));
        assert(alt.take(n).last() == alt[n - 1]);
        assert(c.take(n).last() == c[n - 1]);
        assert(has_key(pinned, n - 1) <==> alt[n - 1] is PinnedWord);
        assert(has_number(miss, n - 1) <==> alt[n - 1] is Missing);
        let a = movable_codes(alt.take(n - 1), list).len() as int;
        let b = missing_positions(alt.take(n - 1)).len() as int;
        if alt[n - 1] is Word {
            assert(kp.take(a + 1) =~= kp.take(a).push(kp[a]));
        } else if alt[n - 1] is Missing {
            assert(mv.take(b + 1) =~= mv.take(b).push(mv[b]));
        }
    } else {
        assert(kp.take(0) =~= Seq::empty());
        assert(mv.take(0) =~= Seq::empty());
    }
}

/// The last pair with a key gives the value of the key.
pub proof fn lemma_last_value(pinned: Seq<(usize, u16)>, k: int)
    requires
        0 <= k < pinned.len(),
        forall|l: int| k < l < pinned.len() ==> (#[trigger] pinned[l]).0 != pinned[k].0,
    ensures
        last_value(pinned, pinned[k].0 as int) == pinned[k].1,
    decreases pinned.len(),
{
    if k < pinned.len() - 1 {
        let less = pinned.drop_last();
        assert forall|l: int| k < l < less.len() implies (#[trigger] less[l]).0 != less[k].0 by {
            assert(less[l] == pinned[l]);
        }
        lemma_last_value(less, k);
        assert(pinned[pinned.len() - 1].0 != pinned[k].0);
    }
}

proof fn lemma_filled_prefix(
    kp: Seq<u16>,
    pinned: Seq<(usize, u16)>,
    mv: Seq<u16>,
    miss: Seq<usize>,
    total: nat,
    n: nat,
)
    requires
        layout_fits(kp.len(), pinned, miss, total),
        mv.len() == miss.len(),
        n <= total <= usize::MAX,
    ensures
        ({
            let c = filled(kp, pinned, mv, miss, total);
            let a = count(n as int, missing_at(pinned, miss));
            let b = count(n as int, movable_at(pinned, miss));
            &&& 0 <= a <= mv.len()
            &&& 0 <= b <= kp.len()
            &&& Seq::new(n, |q: int| q).filter(
                |q: int|
                    miss.contains(q as usize) && forall|k: int|
                        0 <= k < pinned.len() ==> (#[trigger] pinned[k]).0 != q,
            ).map_values(|q: int| c[q]) == mv.take(a)
            &&& Seq::new(n, |q: int| q).filter(
                |q: int|
                    !miss.contains(q as usize) && forall|k: int|
                        0 <= k < pinned.len() ==> (#[trigger] pinned[k]).0 != q,
            ).map_values(|q: int| c[q]) == kp.take(b)
        }),
    decreases n,
{
    reveal(Seq::filter);
    let c = filled(kp, pinned, mv, miss, total);
    let at_miss = missing_at(pinned, miss);
    let at_move = movable_at(pinned, miss);
    let is_miss = |q: int|
        miss.contains(q as usize) && forall|k: int|
            0 <= k < pinned.len() ==> (#[trigger] pinned[k]).0 != q;
    let is_move = |q: int|
        !miss.contains(q as usize) && forall|k: int|
            0 <= k < pinned.len() ==> (#[trigger] pinned[k]).0 != q;
    let word = |q: int| c[q];
    let all = Seq::new(n, |q: int| q);
    let a = count(n as int, at_miss);
    let b = count(n as int, at_move);
    lemma_count_bounds(n as int, total as int, at_miss);
    lemma_count_bounds(n as int, total as int, at_move);
    if n > 0 {
        let less = (n - 1) as nat;
        let q = n - 1;
        lemma_filled_prefix(kp, pinned, mv, miss, total, less);
        assert(all.drop_last() =~= Seq::new(less, |q: int| q));
        assert(all.last() == q);
        number_stands_in_the_list(miss, q);
        assert(has_key(pinned, q) <==> !(forall|k: int|
            0 <= k < pinned.len() ==> (#[trigger] pinned[k]).0 != q)) by {
            if has_key(pinned, q) {
                let k = choose|k: int| 0 <= k < pinned.len() && #[trigger] pinned[k].0 == q;
                assert(pinned[k].0 == q);
            }
            if !(forall|k: int| 0 <= k < pinned.len() ==> (#[trigger] pinned[k]).0 != q) {
                let k = choose|k: int| 0 <= k < pinned.len() && (#[trigger] pinned[k]).0 == q;
                assert(pinned[k].0 == q);
            }
        }
        assert(at_miss(q) == is_miss(q));
        assert(at_move(q) == is_move(q));
        if is_miss(q) {
            assert(mv.take(a) =~= mv.take(a - 1).push(mv[a - 1]));
        } else if is_move(q) {
            assert(kp.take(b) =~= kp.take(b - 1).push(kp[b - 1]));
        }
        assert(all.filter(is_miss).map_values(word) =~= mv.take(a));
        assert(all.filter(is_move).map_values(word) =~= kp.take(b));
    } else {
        assert(all.filter(is_miss).map_values(word) =~= mv.take(0));
        assert(all.filter(is_move).map_values(word) =~= kp.take(0));
    }
}

/// A candidate that is filled in has at each pinned place the word that is pinned there, the last one
/// where several are. At the other places of unknown words stand the words tried for these, and
/// everywhere else the words to permute, both from left to right.
pub proof fn candidate_is_filled_in(
    kp: Seq<u16>,
    pinned: Seq<(usize, u16)>,
    mv: Seq<u16>,
    miss: Seq<usize>,
    total: nat,
)
    requires
        layout_fits(kp.len(), pinned, miss, total),
        mv.len() == miss.len(),
        total <= usize::MAX,
    ensures
        filled(kp, pinned, mv, miss, total).len() == total,
        forall|k: int|
            0 <= k < pinned.len() && (forall|l: int|
                k < l < pinned.len() ==> (#[trigger] pinned[l]).0 != pinned[k].0) ==> filled(
                kp,
                pinned,
                mv,
                miss,
                total,
            )[(#[trigger] pinned[k]).0 as int] == pinned[k].1,
        ({
            let words = Seq::new(total, |q: int| q).filter(
                |q: int|
                    miss.contains(q as usize) && forall|k: int|
                        0 <= k < pinned.len() ==> (#[trigger] pinned[k]).0 != q,
            ).map_values(|q: int| filled(kp, pinned, mv, miss, total)[q]);
            words.len() <= mv.len() && words == mv.take(words.len() as int)
        }),
        ({
            let words = Seq::new(total, |q: int| q).filter(
                |q: int|
                    !miss.contains(q as usize) && forall|k: int|
                        0 <= k < pinned.len() ==> (#[trigger] pinned[k]).0 != q,
            ).map_values(|q: int| filled(kp, pinned, mv, miss, total)[q]);
            words.len() <= kp.len() && words == kp.take(words.len() as int)
        }),
{
    lemma_filled_prefix(kp, pinned, mv, miss, total, total);
    let c = filled(kp, pinned, mv, miss, total);
    assert forall|k: int|
        0 <= k < pinned.len() && (forall|l: int|
            k < l < pinned.len() ==> (#[trigger] pinned[l]).0 != pinned[k].0) implies c[(
    #[trigger] pinned[k]).0 as int] == pinned[k].1 by {
        lemma_last_value(pinned, k);
        assert(has_key(pinned, pinned[k].0 as int));
    }
}

/// Every sequence of `k` word numbers below `n` is listed, and no other one.
pub proof fn code_tuples_are_all(n: u16, k: nat, mv: Seq<u16>)
    ensures
        code_tuples(n, k).contains(mv) <==> mv.len() == k && forall|i: int|
            0 <= i < mv.len() ==> (#[trigger] mv[i]) < n,
{
    let radix = Seq::new(k, |i: int| n as int);
    let all = tuples(radix);
    if code_tuples(n, k).contains(mv) {
        let j = code_tuples(n, k).index_of(mv);
        let t = all[j];
        assert(all.contains(t));
        lemma_tuples_contains(radix, t);
        assert(mv == codes(t));
        assert forall|i: int| 0 <= i < mv.len() implies (#[trigger] mv[i]) < n by {
            assert(0 <= t[i] < radix[i]);
        }
    }
    if mv.len() == k && forall|i: int| 0 <= i < mv.len() ==> (#[trigger] mv[i]) < n {
        let t = mv.map_values(|v: u16| v as int);
        lemma_tuples_contains(radix, t);
        assert(within(radix, t)) by {
            assert forall|i: int| #![trigger t[i]] 0 <= i < t.len() implies 0 <= t[i]
                < radix[i] by {
                assert(mv[i] < n);
            }
        }
        let j = all.index_of(t);
        assert(codes(t) =~= mv);
        assert(code_tuples(n, k)[j] == mv);
    }
}

/// The candidates of an alternative are exactly what may stand for it.
pub proof fn alternative_candidates_are_all(
    alt: Seq<TokenView>,
    list: Seq<Seq<char>>,
    keep_word_order: bool,
    c: Seq<u16>,
)
    requires
        alt.len() <= usize::MAX,
        list.len() <= u16::MAX,
    ensures
        alternative_candidates(alt, list, keep_word_order).contains(c) <==> is_candidate(
            alt,
            list,
            keep_word_order,
            c,
        ),
{
    let movable = movable_codes(alt, list);
    let pinned = pinned_codes(alt, list);
    let miss = missing_positions(alt);
    let total = alt.len();
    let n = list.len() as usize as u16;
    assert(n == list.len());
    let orders = word_orders(movable, keep_word_order);
    let choices = code_tuples(n, miss.len());
    let f = candidates_of_order(orders, pinned, miss, total, list.len() as usize);
    lemma_concat_contains(0, orders.len() as int, f, c);
    lemma_pinned_keys(alt, list);
    lemma_missing_numbers(alt);
    if alternative_candidates(alt, list, keep_word_order).contains(c) {
        let i = choose|i: int| 0 <= i < orders.len() && #[trigger] f(i).contains(c);
        let kp = orders[i];
        let put = |mv: Seq<u16>| filled(kp, pinned, mv, miss, total);
        assert(f(i) =~= choices.map_values(put));
        let j = f(i).index_of(c);
        let mv = choices[j];
        assert(choices.contains(mv));
        code_tuples_are_all(n, miss.len(), mv);
        assert(orders.contains(kp));
        if !keep_word_order {
            lemma_permutations_sound(movable, kp);
        }
        lemma_filled_reads_back(alt, list, kp, mv, total as int);
        assert(alt.take(total as int) =~= alt);
        assert(c.take(total as int) =~= c);
        assert(kp.take(kp.len() as int) =~= kp);
        assert(mv.take(mv.len() as int) =~= mv);
        assert(at_words(alt, c) == kp);
        assert(at_missing(alt, c) == mv);
        assert forall|q: int| 0 <= q < c.len() implies (alt[q] matches TokenView::PinnedWord(w)
            ==> #[trigger] c[q] == code_of(list, w)) by {
            if alt[q] is PinnedWord {
                assert(has_key(pinned, q));
                lemma_pinned_value(alt, list, q);
            }
        }
        assert forall|q: int| 0 <= q < c.len() && alt[q] is Missing implies (#[trigger] c[q])
            < list.len() by {
            lemma_at_index(alt, list, c, q);
            assert(mv[missing_positions(alt.take(q)).len() as int] < n);
        }
    }
    if is_candidate(alt, list, keep_word_order, c) {
        let kp = at_words(alt, c);
        let mv = at_missing(alt, c);
        lemma_at_len(alt, list, c);
        if keep_word_order {
            assert(orders[0] == kp);
        } else {
            lemma_permutations_complete(movable, kp);
        }
        assert(orders.contains(kp));
        let i = orders.index_of(kp);
        let put = |mv: Seq<u16>| filled(kp, pinned, mv, miss, total);
        assert forall|k: int| 0 <= k < mv.len() implies (#[trigger] mv[k]) < n by {
            lemma_missing_from(alt, c, list, k);
        }
        code_tuples_are_all(n, miss.len(), mv);
        let j = choices.index_of(mv);
        assert forall|q: int| 0 <= q < c.len() implies #[trigger] put(mv)[q] == c[q] by {
            lemma_counts(alt, list, q);
            lemma_at_index(alt, list, c, q);
            assert(has_key(pinned, q) <==> alt[q] is PinnedWord);
            assert(has_number(miss, q) <==> alt[q] is Missing);
            if alt[q] is PinnedWord {
                lemma_pinned_value(alt, list, q);
            }
        }
        assert(put(mv) =~= c);
        assert(f(i) =~= choices.map_values(put));
        assert(f(i)[j] == c);
        assert(f(i).contains(c));
    }
}

proof fn lemma_missing_from(alt: Seq<TokenView>, c: Seq<u16>, list: Seq<Seq<char>>, k: int)
    requires
        c.len() == alt.len(),
        forall|i: int| 0 <= i < c.len() && alt[i] is Missing ==> (#[trigger] c[i]) < list.len(),
        0 <= k < at_missing(alt, c).len(),
    ensures
        at_missing(alt, c)[k] < list.len(),
    decreases alt.len(),
{
    if alt.len() > 0 {
        let init = alt.drop_last();
        let ci = c.drop_last();
        assert forall|i: int| 0 <= i < ci.len() && init[i] is Missing implies (#[trigger] ci[i])
            < list.len() by {
            assert(c[i] < list.len());
        }
        if k < at_missing(init, ci).len() {
            lemma_missing_from(init, ci, list, k);
        } else {
            assert(c[alt.len() - 1] < list.len());
        }
    }
}

proof fn lemma_mapped_multiset<T, U>(a: Seq<T>, b: Seq<T>, g: spec_fn(T) -> U)
    requires
        a.to_multiset() == b.to_multiset(),
    ensures
        a.map_values(g).to_multiset() == b.map_values(g).to_multiset(),
{
    lemma_permutations_complete(b, a);
    lemma_permutations_map(b, g);
    let k = permutations(b).index_of(a);
    let gg = |p: Seq<T>| p.map_values(g);
    assert(permutations(b).map_values(gg)[k] == a.map_values(g));
    assert(permutations(b.map_values(g)).contains(a.map_values(g)));
    lemma_permutations_sound(b.map_values(g), a.map_values(g));
}

/// The entries that stand for words to permute are those at the places of the unquoted words.
proof fn lemma_at_words_places(alt: Seq<TokenView>, c: Seq<u16>, n: int)
    requires
        c.len() == alt.len(),
        0 <= n <= alt.len(),
    ensures
        at_words(alt.take(n), c.take(n)) == iota(n as nat).filter(
            |i: int| alt[i] is Word,
        ).map_values(|i: int| c[i]),
    decreases n,
{
    reveal(Seq::filter);
    let f = |i: int| alt[i] is Word;
    let g = |i: int| c[i];
    if n > 0 {
        lemma_at_words_places(alt, c, n - 1);
        assert(alt.take(n).drop_last() =~= alt.take(n - 1));
        assert(c.take(n).drop_last() =~= c.take(n - 1));
        assert(iota(n as nat).drop_last() =~= iota((n - 1) as nat));
        assert(iota(n as nat).last() == n - 1);
    }
    assert(at_words(alt.take(n), c.take(n)) =~= iota(n as nat).filter(f).map_values(g));
}

/// What stands for the words to permute, or for the unknown words, stands at their places, from left
/// to right.
pub proof fn entries_stand_at_their_places(alt: Seq<TokenView>, c: Seq<u16>)
    requires
        c.len() == alt.len(),
    ensures
        at_words(alt, c) == Seq::new(alt.len(), |i: int| i).filter(
            |i: int| alt[i] is Word,
        ).map_values(|i: int| c[i]),
        at_missing(alt, c) == Seq::new(alt.len(), |i: int| i).filter(
            |i: int| alt[i] is Missing,
        ).map_values(|i: int| c[i]),
{
    let n = alt.len() as int;
    lemma_at_words_places(alt, c, n);
    lemma_at_missing_places(alt, c, n);
    assert(alt.take(n) =~= alt);
    assert(c.take(n) =~= c);
    assert(Seq::new(alt.len(), |i: int| i) =~= iota(alt.len()));
}

proof fn lemma_at_missing_places(alt: Seq<TokenView>, c: Seq<u16>, n: int)
    requires
        c.len() == alt.len(),
        0 <= n <= alt.len(),
    ensures
        at_missing(alt.take(n), c.take(n)) == iota(n as nat).filter(
            |i: int| alt[i] is Missing,
        ).map_values(|i: int| c[i]),
    decreases n,
{
    reveal(Seq::filter);
    let f = |i: int| alt[i] is Missing;
    let g = |i: int| c[i];
    if n > 0 {
        lemma_at_missing_places(alt, c, n - 1);
        assert(alt.take(n).drop_last() =~= alt.take(n - 1));
        assert(c.take(n).drop_last() =~= c.take(n - 1));
        assert(iota(n as nat).drop_last() =~= iota((n - 1) as nat));
        assert(iota(n as nat).last() == n - 1);
    }
    assert(at_missing(alt.take(n), c.take(n)) =~= iota(n as nat).filter(f).map_values(g));
}

/// The texts of the words to permute.
proof fn lemma_movable_texts(alt: Seq<TokenView>, list: Seq<Seq<char>>)
    requires
        alt.len() <= usize::MAX,
        list.len() <= 65536,
        forall|i: int|
            0 <= i < alt.len() ==> match #[trigger] alt[i] {
                TokenView::Word(w) => list.contains(w),
                TokenView::PinnedWord(w) => list.contains(w),
                TokenView::Missing => true,
            },
    ensures
        movable_codes(alt, list).map_values(|x: u16| list[x as int]) == alt.filter(
            |t: TokenView| t is Word,
        ).map_values(|t: TokenView| t->Word_0),
{
    words_are_sorted_out(alt, list);
    let texts = movable_codes(alt, list).map_values(|x: u16| list[x as int]);
    let words = alt.filter(|t: TokenView| t is Word).map_values(|t: TokenView| t->Word_0);
    assert forall|k: int| 0 <= k < texts.len() implies #[trigger] texts[k] == words[k] by {
        assert(movable_codes(alt, list)[k] < list.len());
    }
    assert(texts =~= words);
}

proof fn lemma_movable_index(alt: Seq<TokenView>, list: Seq<Seq<char>>, q: int)
    requires
        0 <= q < alt.len(),
        alt[q] is Word,
    ensures
        movable_codes(alt.take(q), list).len() < movable_codes(alt, list).len(),
        movable_codes(alt, list)[movable_codes(alt.take(q), list).len() as int] == code_of(
            list,
            alt[q]->Word_0,
        ),
    decreases alt.len(),
{
    let init = alt.drop_last();
    if q < alt.len() - 1 {
        lemma_movable_index(init, list, q);
        assert(init.take(q) =~= alt.take(q));
    } else {
        assert(alt.take(q) =~= init);
    }
}

proof fn lemma_spelled_in_order(alt: Seq<TokenView>, list: Seq<Seq<char>>, c: Seq<u16>)
    requires
        c.len() == alt.len(),
        forall|i: int|
            0 <= i < alt.len() ==> (alt[i] matches TokenView::Word(w) ==> #[trigger] c[i]
                == code_of(list, w)),
    ensures
        at_words(alt, c) == movable_codes(alt, list),
    decreases alt.len(),
{
    if alt.len() > 0 {
        let init = alt.drop_last();
        let ci = c.drop_last();
        assert forall|i: int| 0 <= i < init.len() implies (init[i] matches TokenView::Word(w)
            ==> #[trigger] ci[i] == code_of(list, w)) by {
            assert(c[i] == ci[i]);
        }
        lemma_spelled_in_order(init, list, ci);
        assert(c[alt.len() - 1] == c.last());
    }
}

/// A candidate spells its alternative. It has a number for each token, and every number stands for a
/// word of the list. At the place of a pinned word stands that word. Where the order of the words is
/// kept, at the place of each unquoted word stands that word; otherwise the words at the places of
/// the unquoted ones are these words, each as often as it is given, in any order. In a list without
/// repetitions, everything that spells the alternative in this way is a candidate.
pub proof fn candidates_spell_the_alternative(
    alt: Seq<TokenView>,
    list: Seq<Seq<char>>,
    keep_word_order: bool,
    c: Seq<u16>,
)
    requires
        alt.len() <= usize::MAX,
        list.len() <= u16::MAX,
        forall|i: int|
            0 <= i < alt.len() ==> match #[trigger] alt[i] {
                TokenView::Word(w) => list.contains(w),
                TokenView::PinnedWord(w) => list.contains(w),
                TokenView::Missing => true,
            },
    ensures
        ({
            let spelled = {
                &&& c.len() == alt.len()
                &&& forall|i: int| 0 <= i < c.len() ==> (#[trigger] c[i]) < list.len()
                &&& forall|i: int|
                    0 <= i < c.len() ==> (alt[i] matches TokenView::PinnedWord(w) ==> list[(
                    #[trigger] c[i]) as int] == w)
                &&& if keep_word_order {
                    forall|i: int|
                        0 <= i < c.len() ==> (alt[i] matches TokenView::Word(w) ==> list[(
                        #[trigger] c[i]) as int] == w)
                } else {
                    Seq::new(alt.len(), |i: int| i).filter(|i: int| alt[i] is Word).map_values(
                        |i: int| list[c[i] as int],
                    ).to_multiset() == alt.filter(|t: TokenView| t is Word).map_values(
                        |t: TokenView| t->Word_0,
                    ).to_multiset()
                }
            };
            &&& alternative_candidates(alt, list, keep_word_order).contains(c) ==> spelled
            &&& list.no_duplicates() && spelled ==> alternative_candidates(
                alt,
                list,
                keep_word_order,
            ).contains(c)
        }),
{
    broadcast use vstd::seq_lib::group_to_multiset_ensures;

    let n = alt.len() as int;
    let look = |x: u16| list[x as int];
    let number = |w: Seq<char>| code_of(list, w);
    let places = Seq::new(alt.len(), |i: int| i).filter(|i: int| alt[i] is Word);
    let stands = places.map_values(|i: int| list[c[i] as int]);
    let given = alt.filter(|t: TokenView| t is Word).map_values(|t: TokenView| t->Word_0);
    let movable = movable_codes(alt, list);
    assert(Seq::new(alt.len(), |i: int| i) =~= iota(alt.len()));
    words_are_sorted_out(alt, list);
    lemma_movable_texts(alt, list);
    assert(movable.map_values(look) == given);
    alternative_candidates_are_all(alt, list, keep_word_order, c);
    if c.len() == alt.len() {
        lemma_at_words_places(alt, c, n);
        assert(alt.take(n) =~= alt);
        assert(c.take(n) =~= c);
        assert(at_words(alt, c).map_values(look) =~= stands);
    }
    assert forall|i: int| 0 <= i < alt.len() implies match #[trigger] alt[i] {
        TokenView::Word(w) => code_of(list, w) < list.len() && list[code_of(list, w) as int] == w,
        TokenView::PinnedWord(w) => code_of(list, w) < list.len() && list[code_of(
            list,
            w,
        ) as int] == w,
        TokenView::Missing => true,
    } by {
        match alt[i] {
            TokenView::Word(w) => lemma_position(list, w),
            TokenView::PinnedWord(w) => lemma_position(list, w),
            TokenView::Missing => {},
        }
    }
    if alternative_candidates(alt, list, keep_word_order).contains(c) {
        let ws = at_words(alt, c);
        assert forall|i: int| 0 <= i < c.len() implies (#[trigger] c[i]) < list.len() by {
            match alt[i] {
                TokenView::PinnedWord(w) => {
                    assert(c[i] == code_of(list, w));
                },
                TokenView::Missing => {},
                TokenView::Word(w) => {
                    lemma_at_index(alt, list, c, i);
                    assert(ws.contains(c[i]));
                    assert(ws.to_multiset().count(c[i]) > 0);
                    assert(movable.to_multiset().count(c[i]) > 0);
                    assert(movable.contains(c[i]));
                    let k = movable.index_of(c[i]);
                    assert(movable[k] < list.len());
                },
            }
        }
        if keep_word_order {
            assert forall|i: int| 0 <= i < c.len() implies (alt[i] matches TokenView::Word(w)
                ==> list[(#[trigger] c[i]) as int] == w) by {
                if alt[i] is Word {
                    lemma_at_index(alt, list, c, i);
                    lemma_movable_index(alt, list, i);
                }
            }
        } else {
            lemma_mapped_multiset(ws, movable, look);
        }
    }
    if list.no_duplicates() && c.len() == alt.len() && (forall|i: int|
        0 <= i < c.len() ==> (#[trigger] c[i]) < list.len()) && (forall|i: int|
        0 <= i < c.len() ==> (alt[i] matches TokenView::PinnedWord(w) ==> list[(
        #[trigger] c[i]) as int] == w)) {
        let ws = at_words(alt, c);
        if keep_word_order && forall|i: int|
            0 <= i < c.len() ==> (alt[i] matches TokenView::Word(w) ==> list[(
            #[trigger] c[i]) as int] == w) {
            assert forall|i: int| 0 <= i < alt.len() implies (alt[i] matches TokenView::Word(w)
                ==> #[trigger] c[i] == code_of(list, w)) by {
                assert(c[i] < list.len());
            }
            lemma_spelled_in_order(alt, list, c);
            assert(is_candidate(alt, list, keep_word_order, c));
        }
        if !keep_word_order && stands.to_multiset() == given.to_multiset() {
            lemma_mapped_multiset(stands, given, number);
            assert forall|k: int| 0 <= k < ws.len() implies #[trigger] stands.map_values(number)[k]
                == ws[k] by {
                lemma_at_words_listed(alt, c, list, k);
                lemma_position(list, list[ws[k] as int]);
                assert(list.contains(list[ws[k] as int]));
                assert(stands[k] == list[ws[k] as int]);
            }
            assert(stands.map_values(number) =~= ws);
            assert forall|k: int| 0 <= k < movable.len() implies #[trigger] given.map_values(
                number,
            )[k] == movable[k] by {
                assert(movable[k] < list.len());
                lemma_position(list, list[movable[k] as int]);
                assert(list.contains(list[movable[k] as int]));
            }
            assert(given.map_values(number) =~= movable);
            assert(is_candidate(alt, list, keep_word_order, c));
        }
    }
}

proof fn lemma_at_words_listed(alt: Seq<TokenView>, c: Seq<u16>, list: Seq<Seq<char>>, k: int)
    requires
        c.len() == alt.len(),
        forall|i: int| 0 <= i < c.len() ==> (#[trigger] c[i]) < list.len(),
        0 <= k < at_words(alt, c).len(),
    ensures
        at_words(alt, c)[k] < list.len(),
    decreases alt.len(),
{
    if alt.len() > 0 {
        let init = alt.drop_last();
        let ci = c.drop_last();
        assert forall|i: int| 0 <= i < ci.len() implies (#[trigger] ci[i]) < list.len() by {
            assert(c[i] < list.len());
        }
        if k < at_words(init, ci).len() {
            lemma_at_words_listed(init, ci, list, k);
        } else {
            assert(c[alt.len() - 1] < list.len());
        }
    }
}

/// An alternative stands for as many candidates as its words have orders, times the number of
/// words in the list for each unknown one.
pub proof fn alternative_candidates_count(
    alt: Seq<TokenView>,
    list: Seq<Seq<char>>,
    keep_word_order: bool,
)
    requires
        list.len() <= u16::MAX,
    ensures
        alternative_candidates(alt, list, keep_word_order).len() == (if keep_word_order {
            1
        } else {
            fact(movable_codes(alt, list).len())
        }) * pow(list.len() as int, missing_positions(alt).len()),
{
    let movable = movable_codes(alt, list);
    let pinned = pinned_codes(alt, list);
    let miss = missing_positions(alt);
    let n = list.len() as usize as u16;
    assert(n == list.len());
    let orders = word_orders(movable, keep_word_order);
    let each = code_tuples(n, miss.len()).len();
    let f = candidates_of_order(orders, pinned, miss, alt.len(), list.len() as usize);
    assert forall|i: int| 0 <= i < orders.len() implies (#[trigger] f(i)).len() == each by {}
    lemma_concat_len(0, orders.len() as int, f, each);
    if !keep_word_order {
        lemma_permutations_len(movable);
    }
    let radix = Seq::new(miss.len(), |i: int| n as int);
    lemma_tuples_len(radix);
    lemma_equal_product(n as int, miss.len());
}

/// Equal factors make a power.
pub proof fn lemma_equal_product(n: int, k: nat)
    ensures
        product(Seq::new(k, |i: int| n)) == pow(n, k),
    decreases k,
{
    reveal(pow);
    let s = Seq::new(k, |i: int| n);
    if k > 0 {
        lemma_equal_product(n, (k - 1) as nat);
        assert(s.drop_first() =~= Seq::new((k - 1) as nat, |i: int| n));
    }
}

/// The number of candidates of the first `n` alternatives of a slot, added up.
pub open spec fn candidate_sum(
    alts: Seq<Seq<TokenView>>,
    list: Seq<Seq<char>>,
    keep_word_order: bool,
    n: int,
) -> nat
    decreases n,
{
    if n <= 0 {
        0
    } else {
        candidate_sum(alts, list, keep_word_order, n - 1) + alternative_candidates(
            alts[n - 1],
            list,
            keep_word_order,
        ).len()
    }
}

/// A slot has as many options as its alternatives have candidates together.
pub proof fn slot_options_count(
    alts: Seq<Seq<TokenView>>,
    list: Seq<Seq<char>>,
    keep_word_order: bool,
)
    ensures
        slot_options(alts, list, keep_word_order).len() == candidate_sum(
            alts,
            list,
            keep_word_order,
            alts.len() as int,
        ),
{
    let f = |a: int| alternative_candidates(alts[a], list, keep_word_order);
    lemma_candidate_sum(alts, list, keep_word_order, alts.len() as int, f);
}

proof fn lemma_candidate_sum(
    alts: Seq<Seq<TokenView>>,
    list: Seq<Seq<char>>,
    keep_word_order: bool,
    n: int,
    f: spec_fn(int) -> Seq<Seq<u16>>,
)
    requires
        forall|a: int| #[trigger] f(a) == alternative_candidates(alts[a], list, keep_word_order),
    ensures
        concat_range(0, n, f).len() == candidate_sum(alts, list, keep_word_order, n),
    decreases n,
{
    if n > 0 {
        lemma_candidate_sum(alts, list, keep_word_order, n - 1, f);
        assert(f(n - 1) == alternative_candidates(alts[n - 1], list, keep_word_order));
    }
}

/// A slot stands for what its alternatives stand for.
pub proof fn slot_options_are_all(
    alts: Seq<Seq<TokenView>>,
    list: Seq<Seq<char>>,
    keep_word_order: bool,
    c: Seq<u16>,
)
    requires
        forall|a: int| 0 <= a < alts.len() ==> (#[trigger] alts[a]).len() <= usize::MAX,
        list.len() <= u16::MAX,
    ensures
        slot_options(alts, list, keep_word_order).contains(c) <==> exists|a: int|
            0 <= a < alts.len() && is_candidate(#[trigger] alts[a], list, keep_word_order, c),
{
    let f = |a: int| alternative_candidates(alts[a], list, keep_word_order);
    lemma_concat_contains(0, alts.len() as int, f, c);
    if slot_options(alts, list, keep_word_order).contains(c) {
        let a = choose|a: int| 0 <= a < alts.len() && #[trigger] f(a).contains(c);
        alternative_candidates_are_all(alts[a], list, keep_word_order, c);
    }
    if exists|a: int|
        0 <= a < alts.len() && is_candidate(#[trigger] alts[a], list, keep_word_order, c) {
        let a = choose|a: int|
            0 <= a < alts.len() && is_candidate(#[trigger] alts[a], list, keep_word_order, c);
        alternative_candidates_are_all(alts[a], list, keep_word_order, c);
        assert(f(a).contains(c));
    }
}

} // verus!
