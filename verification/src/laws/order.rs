//! Laws of the order in which things are tried.
use vstd::arithmetic::power::pow;
use vstd::prelude::*;

use crate::candidates::{
    alternative_candidates, candidate_list, candidates_of_order, code_tuples, codes, filled,
    missing_positions, movable_codes, pinned_codes, word_orders,
};
use crate::enumeration::iota;
use crate::laws::candidates::{at_missing, at_words, lemma_equal_product, lemma_filled_reads_back};
use crate::laws::words::lemma_placed_prefix;
use crate::listing::{
    combinations, concat_range, lemma_combinations_contains,
    lemma_concat_contains, lemma_permutations_first, lemma_permutations_sound,
    lemma_tuples_contains, lemma_tuples_len, permutations, permutations_by_head, prefixed, tuples,
};
use crate::phrases::slot_orders;
use crate::plan::{entries, selections_of, slot_selections};
use crate::tokens::TokenView;
use crate::totals::{insertions_count, rising};
use crate::word_mode::{
    insertions, insertions_by_gap, insertions_by_word, insertions_of, lemma_movable_len,
    movable_words, pinned_orders, placed, word_candidates,
};

verus! {

////// Lexicographic order

/// At the first place where they differ, `a` has the smaller number.
spec fn comes_before(a: Seq<int>, b: Seq<int>) -> bool {
    exists|p: int|
        0 <= p < a.len() && p < b.len() && (#[trigger] a[p]) < b[p] && forall|q: int|
            0 <= q < p ==> #[trigger] a[q] == b[q]
}

proof fn lemma_prefix_order(v: int, a: Seq<int>, b: Seq<int>)
    requires
        comes_before(a, b),
    ensures
        comes_before(seq![v] + a, seq![v] + b),
{
    let p = choose|p: int|
        0 <= p < a.len() && p < b.len() && (#[trigger] a[p]) < b[p] && forall|q: int|
            0 <= q < p ==> #[trigger] a[q] == b[q];
    let x = seq![v] + a;
    let y = seq![v] + b;
    assert(x[p + 1] < y[p + 1]);
    assert forall|q: int| 0 <= q < p + 1 implies #[trigger] x[q] == y[q] by {
        if q > 0 {
            assert(a[q - 1] == b[q - 1]);
        }
    }
}

/// The entries of a list follow each other in this order.
spec fn is_ordered<T>(s: Seq<T>, r: spec_fn(T, T) -> bool) -> bool {
    forall|i: int, j: int| 0 <= i < j < s.len() ==> r(#[trigger] s[i], #[trigger] s[j])
}

/// The entries of one list come before those of another.
spec fn all_before<T>(s: Seq<T>, t: Seq<T>, r: spec_fn(T, T) -> bool) -> bool {
    forall|i: int, j: int|
        0 <= i < s.len() && 0 <= j < t.len() ==> r(#[trigger] s[i], #[trigger] t[j])
}

proof fn lemma_concat_ordered<T>(
    lo: int,
    hi: int,
    f: spec_fn(int) -> Seq<T>,
    r: spec_fn(T, T) -> bool,
)
    requires
        forall|i: int| lo <= i < hi ==> is_ordered(#[trigger] f(i), r),
        forall|i: int, j: int|
            lo <= i < j < hi ==> all_before(#[trigger] f(i), #[trigger] f(j), r),
    ensures
        is_ordered(concat_range(lo, hi, f), r),
    decreases hi - lo,
{
    if lo < hi {
        lemma_concat_ordered(lo, hi - 1, f, r);
        let a = concat_range(lo, hi - 1, f);
        let b = f(hi - 1);
        let all = a + b;
        assert forall|i: int, j: int| 0 <= i < j < all.len() implies r(
            #[trigger] all[i],
            #[trigger] all[j],
        ) by {
            if j < a.len() {
                assert(r(a[i], a[j]));
            } else if i >= a.len() {
                assert(is_ordered(b, r));
                assert(r(b[i - a.len()], b[j - a.len()]));
            } else {
                assert(a.contains(a[i]));
                lemma_concat_contains(lo, hi - 1, f, a[i]);
                let k = choose|k: int| lo <= k < hi - 1 && #[trigger] f(k).contains(a[i]);
                let m = f(k).index_of(a[i]);
                assert(all_before(f(k), f(hi - 1), r));
                assert(r(f(k)[m], b[j - a.len()]));
            }
        }
    }
}

proof fn lemma_tuples_ordered(radix: Seq<int>)
    ensures
        is_ordered(tuples(radix), |a: Seq<int>, b: Seq<int>| comes_before(a, b)),
    decreases radix.len(),
{
    let r = |a: Seq<int>, b: Seq<int>| comes_before(a, b);
    if radix.len() > 0 {
        let rest = tuples(radix.drop_first());
        let f = |v: int| prefixed(v, rest);
        lemma_tuples_ordered(radix.drop_first());
        lemma_heads_ordered(radix[0], f, rest);
    }
}

/// Heads that grow keep the order of the tails.
proof fn lemma_heads_ordered(n: int, f: spec_fn(int) -> Seq<Seq<int>>, rest: Seq<Seq<int>>)
    requires
        forall|v: int| #[trigger] f(v) == prefixed(v, rest),
        is_ordered(rest, |a: Seq<int>, b: Seq<int>| comes_before(a, b)),
    ensures
        is_ordered(concat_range(0, n, f), |a: Seq<int>, b: Seq<int>| comes_before(a, b)),
{
    let r = |a: Seq<int>, b: Seq<int>| comes_before(a, b);
    assert forall|v: int| 0 <= v < n implies is_ordered(#[trigger] f(v), r) by {
        assert forall|i: int, j: int| 0 <= i < j < f(v).len() implies r(
            #[trigger] f(v)[i],
            #[trigger] f(v)[j],
        ) by {
            assert(r(rest[i], rest[j]));
            lemma_prefix_order(v, rest[i], rest[j]);
        }
    }
    assert forall|v: int, w: int| 0 <= v < w < n implies all_before(
        #[trigger] f(v),
        #[trigger] f(w),
        r,
    ) by {
        assert forall|i: int, j: int| 0 <= i < f(v).len() && 0 <= j < f(w).len() implies r(
            #[trigger] f(v)[i],
            #[trigger] f(w)[j],
        ) by {
            assert(f(v)[i][0] < f(w)[j][0]);
        }
    }
    lemma_concat_ordered(0, n, f, r);
}

/// Sequences of word numbers come in lexicographic order: of two that are listed, the earlier one
/// has the smaller number at the first place where they differ.
pub proof fn code_tuples_come_in_order(n: u16, k: nat, i: int, j: int)
    requires
        0 <= i < j < code_tuples(n, k).len(),
    ensures
        exists|p: int|
            0 <= p < k && (#[trigger] code_tuples(n, k)[i][p]) < code_tuples(n, k)[j][p]
                && forall|q: int|
                0 <= q < p ==> #[trigger] code_tuples(n, k)[i][q] == code_tuples(n, k)[j][q],
{
    let radix = Seq::new(k, |i: int| n as int);
    let all = tuples(radix);
    lemma_tuples_ordered(radix);
    let r = |a: Seq<int>, b: Seq<int>| comes_before(a, b);
    let a = all[i];
    let b = all[j];
    assert(r(all[i], all[j]));
    assert(all.contains(a) && all.contains(b));
    lemma_tuples_contains(radix, a);
    lemma_tuples_contains(radix, b);
    let p = choose|p: int|
        0 <= p < a.len() && p < b.len() && (#[trigger] a[p]) < b[p] && forall|q: int|
            0 <= q < p ==> #[trigger] a[q] == b[q];
    let x = code_tuples(n, k)[i];
    let y = code_tuples(n, k)[j];
    assert(x == codes(a) && y == codes(b));
    assert(0 <= a[p] < radix[p] && 0 <= b[p] < radix[p]);
    assert(x[p] == a[p] && y[p] == b[p]);
    assert forall|q: int| 0 <= q < p implies #[trigger] x[q] == y[q] by {
        assert(a[q] == b[q]);
    }
    assert(code_tuples(n, k)[i][p] < code_tuples(n, k)[j][p]);
}

proof fn lemma_permutations_ordered(s: Seq<int>)
    requires
        forall|i: int, j: int| 0 <= i < j < s.len() ==> #[trigger] s[i] < #[trigger] s[j],
    ensures
        is_ordered(permutations(s), |a: Seq<int>, b: Seq<int>| comes_before(a, b)),
    decreases s.len(),
{
    let r = |a: Seq<int>, b: Seq<int>| comes_before(a, b);
    if s.len() > 0 {
        let f = permutations_by_head(s);
        assert forall|v: int| 0 <= v < s.len() implies is_ordered(#[trigger] f(v), r) by {
            let less = s.remove(v);
            assert forall|i: int, j: int| 0 <= i < j < less.len() implies #[trigger] less[i]
                < #[trigger] less[j] by {
                assert(less[i] == if i < v { s[i] } else { s[i + 1] });
                assert(less[j] == if j < v { s[j] } else { s[j + 1] });
            }
            lemma_permutations_ordered(less);
            let rest = permutations(less);
            assert forall|i: int, j: int| 0 <= i < j < f(v).len() implies r(
                #[trigger] f(v)[i],
                #[trigger] f(v)[j],
            ) by {
                assert(r(rest[i], rest[j]));
                lemma_prefix_order(s[v], rest[i], rest[j]);
            }
        }
        assert forall|v: int, w: int| 0 <= v < w < s.len() implies all_before(
            #[trigger] f(v),
            #[trigger] f(w),
            r,
        ) by {
            assert(s[v] < s[w]);
            assert forall|i: int, j: int| 0 <= i < f(v).len() && 0 <= j < f(w).len() implies r(
                #[trigger] f(v)[i],
                #[trigger] f(w)[j],
            ) by {
                assert(f(v)[i][0] < f(w)[j][0]);
            }
        }
        lemma_concat_ordered(0, s.len() as int, f, r);
    }
}

/// The orders of the slots come in lexicographic order.
pub proof fn slot_orders_come_in_order(n: nat, keep_token_order: bool, i: int, j: int)
    requires
        0 <= i < j < slot_orders(n, keep_token_order).len(),
    ensures
        exists|p: int|
            0 <= p < n && (#[trigger] slot_orders(n, keep_token_order)[i][p]) < slot_orders(
                n,
                keep_token_order,
            )[j][p] && forall|q: int|
                0 <= q < p ==> #[trigger] slot_orders(n, keep_token_order)[i][q] == slot_orders(
                    n,
                    keep_token_order,
                )[j][q],
{
    let all = slot_orders(n, keep_token_order);
    let r = |a: Seq<int>, b: Seq<int>| comes_before(a, b);
    lemma_permutations_ordered(iota(n));
    assert(r(all[i], all[j]));
    let a = all[i];
    let b = all[j];
    let p = choose|p: int|
        0 <= p < a.len() && p < b.len() && (#[trigger] a[p]) < b[p] && forall|q: int|
            0 <= q < p ==> #[trigger] a[q] == b[q];
    assert(permutations(iota(n)).contains(a));
    lemma_permutations_sound(iota(n), a);
    assert(slot_orders(n, keep_token_order)[i][p] < slot_orders(n, keep_token_order)[j][p]);
}

proof fn lemma_combinations_ordered(lo: int, n: int, k: int)
    requires
        k >= 0,
    ensures
        is_ordered(combinations(lo, n, k), |a: Seq<int>, b: Seq<int>| comes_before(a, b)),
    decreases n - lo,
{
    let r = |a: Seq<int>, b: Seq<int>| comes_before(a, b);
    let all = combinations(lo, n, k);
    if k > 0 && lo < n {
        let tails = combinations(lo + 1, n, k - 1);
        let rest = combinations(lo + 1, n, k);
        lemma_combinations_ordered(lo + 1, n, k - 1);
        lemma_combinations_ordered(lo + 1, n, k);
        let heads = prefixed(lo, tails);
        assert forall|i: int, j: int| 0 <= i < j < all.len() implies r(
            #[trigger] all[i],
            #[trigger] all[j],
        ) by {
            if j < heads.len() {
                assert(r(tails[i], tails[j]));
                lemma_prefix_order(lo, tails[i], tails[j]);
            } else if i >= heads.len() {
                assert(r(rest[i - heads.len()], rest[j - heads.len()]));
            } else {
                let c = rest[j - heads.len()];
                assert(rest.contains(c));
                lemma_combinations_contains(lo + 1, n, k, c);
                assert(lo + 1 <= c[0]);
                assert(all[i] == seq![lo] + tails[i]);
                assert(all[i][0] < c[0]);
            }
        }
    }
}

/// Selections of fewer slots come before those of more, and those of the same number of slots come
/// in lexicographic order.
pub proof fn selections_come_in_order(free: Seq<usize>, lo: int, hi: int, i: int, j: int)
    requires
        0 <= lo,
        forall|k: int, l: int| 0 <= k < l < free.len() ==> #[trigger] free[k] < #[trigger] free[l],
        0 <= i < j < slot_selections(free, lo, hi).len(),
    ensures
        slot_selections(free, lo, hi)[i].len() < slot_selections(free, lo, hi)[j].len() || (
        slot_selections(free, lo, hi)[i].len() == slot_selections(free, lo, hi)[j].len() && exists|
            p: int,
        |
            0 <= p < slot_selections(free, lo, hi)[i].len() && (#[trigger] slot_selections(
                free,
                lo,
                hi,
            )[i][p]) < slot_selections(free, lo, hi)[j][p] && forall|q: int|
                0 <= q < p ==> #[trigger] slot_selections(free, lo, hi)[i][q] == slot_selections(
                    free,
                    lo,
                    hi,
                )[j][q]),
{
    let f = selections_of(free);
    let n = free.len() as int;
    let r = |a: Seq<usize>, b: Seq<usize>|
        a.len() < b.len() || (a.len() == b.len() && exists|p: int|
            0 <= p < a.len() && (#[trigger] a[p]) < b[p] && forall|q: int|
                0 <= q < p ==> #[trigger] a[q] == b[q]);
    let before = |a: Seq<int>, b: Seq<int>| comes_before(a, b);
    assert forall|k: int| lo <= k < hi + 1 implies is_ordered(#[trigger] f(k), r) by {
        let places = combinations(0, n, k);
        lemma_combinations_ordered(0, n, k);
        assert forall|x: int, y: int| 0 <= x < y < f(k).len() implies r(
            #[trigger] f(k)[x],
            #[trigger] f(k)[y],
        ) by {
            let c = places[x];
            let d = places[y];
            assert(before(places[x], places[y]));
            assert(places.contains(c) && places.contains(d));
            lemma_combinations_contains(0, n, k, c);
            lemma_combinations_contains(0, n, k, d);
            let p = choose|p: int|
                0 <= p < c.len() && p < d.len() && (#[trigger] c[p]) < d[p] && forall|q: int|
                    0 <= q < p ==> #[trigger] c[q] == d[q];
            let a = entries(free, c);
            let b = entries(free, d);
            assert(f(k)[x] == a && f(k)[y] == b);
            assert(0 <= c[p] && d[p] < n);
            assert(a[p] < b[p]);
            assert forall|q: int| 0 <= q < p implies #[trigger] a[q] == b[q] by {
                assert(c[q] == d[q]);
            }
        }
    }
    assert forall|k: int, l: int| lo <= k < l < hi + 1 implies all_before(
        #[trigger] f(k),
        #[trigger] f(l),
        r,
    ) by {
        assert forall|x: int, y: int| 0 <= x < f(k).len() && 0 <= y < f(l).len() implies r(
            #[trigger] f(k)[x],
            #[trigger] f(l)[y],
        ) by {
            let c = combinations(0, n, k)[x];
            let d = combinations(0, n, l)[y];
            assert(combinations(0, n, k).contains(c) && combinations(0, n, l).contains(d));
            lemma_combinations_contains(0, n, k, c);
            lemma_combinations_contains(0, n, l, d);
        }
    }
    lemma_concat_ordered(lo, hi + 1, f, r);
    assert(r(slot_selections(free, lo, hi)[i], slot_selections(free, lo, hi)[j]));
}

////// Blocks

/// Parts of one length stand in blocks.
proof fn lemma_concat_block<T>(lo: int, hi: int, f: spec_fn(int) -> Seq<T>, c: nat, i: int, k: int)
    requires
        lo <= i < hi,
        0 <= k < c,
        forall|j: int| lo <= j < hi ==> (#[trigger] f(j)).len() == c,
    ensures
        0 <= (i - lo) * c + k < concat_range(lo, hi, f).len(),
        concat_range(lo, hi, f)[(i - lo) * c + k] == f(i)[k],
    decreases hi - lo,
{
    crate::listing::lemma_concat_len(lo, hi - 1, f, c);
    crate::listing::lemma_concat_len(lo, hi, f, c);
    let a = concat_range(lo, hi - 1, f);
    assert(f(hi - 1).len() == c);
    assert(0 <= (i - lo) * c) by (nonlinear_arith)
        requires
            lo <= i,
            c >= 0,
    ;
    assert((i - lo) * c + k < (hi - lo) * c) by (nonlinear_arith)
        requires
            i - lo + 1 <= hi - lo,
            0 <= k < c,
    ;
    if i < hi - 1 {
        lemma_concat_block(lo, hi - 1, f, c, i, k);
        assert(concat_range(lo, hi, f)[(i - lo) * c + k] == a[(i - lo) * c + k]);
    } else {
        assert(a.len() == (i - lo) * c);
    }
}

/// The sequences around a base come gap by gap and, in each gap, word by word: those whose first
/// word goes into the same gap stand together, and among them those whose first word is the same.
pub proof fn insertions_come_gap_by_gap(
    base: Seq<Seq<char>>,
    missing: nat,
    list: Seq<Seq<char>>,
    gap: int,
    w: int,
    k: int,
)
    requires
        0 <= gap <= base.len(),
        0 <= w < list.len(),
        0 <= k < insertions(base.insert(gap, list[w]), missing, list).len(),
    ensures
        insertions(base, 0, list) == seq![base],
        ({
            let each = rising(base.len() + 1, missing) * pow(list.len() as int, missing);
            let at = gap * (list.len() * each) + (w * each + k);
            &&& 0 <= at < insertions(base, missing + 1, list).len()
            &&& insertions(base, missing + 1, list)[at] == insertions(
                base.insert(gap, list[w]),
                missing,
                list,
            )[k]
        }),
{
    let more = missing + 1;
    let by_gap = insertions_by_gap(base, more, list);
    let by_word = insertions_by_word(base, gap, more, list);
    insertions_count(base.insert(gap, list[w]), missing, list);
    let each = rising(base.len() + 1, missing) * pow(list.len() as int, missing);
    let words = list.len() as int;
    assert forall|g: int, v: int| 0 <= g < base.len() + 1 && 0 <= v < words implies (
    #[trigger] insertions_by_word(base, g, more, list)(v)).len() == each by {
        insertions_count(base.insert(g, list[v]), missing, list);
    }
    assert forall|g: int| 0 <= g < base.len() + 1 implies (#[trigger] by_gap(g)).len() == words
        * each by {
        let inner = insertions_by_word(base, g, more, list);
        assert forall|v: int| 0 <= v < words implies (#[trigger] inner(v)).len() == each by {
            assert(insertions_by_word(base, g, more, list)(v).len() == each);
        }
        crate::listing::lemma_concat_len(0, words, inner, each as nat);
    }
    assert forall|v: int| 0 <= v < words implies (#[trigger] by_word(v)).len() == each by {
        assert(insertions_by_word(base, gap, more, list)(v).len() == each);
    }
    lemma_concat_block(0, words, by_word, each as nat, w, k);
    let inside = w * each + k;
    assert(by_word(w) == insertions(base.insert(gap, list[w]), missing, list));
    assert(by_gap(gap) == concat_range(0, words, by_word));
    let block = (words * each) as nat;
    assert(0 <= words * each) by (nonlinear_arith)
        requires
            words >= 0,
            each >= 0,
    ;
    lemma_concat_block(0, base.len() as int + 1, by_gap, block, gap, inside);
}

/// The words at the free places of the `k`-th order of the known words are the `k`-th ordering of
/// the words that are not pinned.
pub proof fn orders_come_as_the_orderings(known: Seq<Seq<char>>, pinned: Seq<usize>, k: int)
    requires
        0 <= k < permutations(movable_words(known, pinned)).len(),
    ensures
        pinned_orders(known, pinned).len() == permutations(movable_words(known, pinned)).len(),
        movable_words(pinned_orders(known, pinned)[k], pinned) == permutations(
            movable_words(known, pinned),
        )[k],
{
    let movable = movable_words(known, pinned);
    let order = permutations(movable)[k];
    assert(permutations(movable).contains(order));
    lemma_permutations_sound(movable, order);
    lemma_movable_len(known, pinned);
    let o = placed(known, pinned, order);
    lemma_placed_prefix(known, pinned, order, known.len() as int);
    assert(o.take(o.len() as int) =~= o);
    assert(order.take(order.len() as int) =~= order);
    assert(pinned_orders(known, pinned)[k] == o);
}

/// The words that are not pinned are taken in their order.
pub proof fn movable_words_keep_their_order(known: Seq<Seq<char>>, pinned: Seq<usize>)
    requires
        known.len() <= usize::MAX,
    ensures
        movable_words(known, pinned) == Seq::new(known.len(), |i: int| i).filter(
            |i: int| !pinned.contains(i as usize),
        ).map_values(|i: int| known[i]),
{
    lemma_movable_prefix(known, pinned, known.len());
    assert(known.take(known.len() as int) =~= known);
}

proof fn lemma_movable_prefix(known: Seq<Seq<char>>, pinned: Seq<usize>, n: nat)
    requires
        n <= known.len() <= usize::MAX,
    ensures
        movable_words(known.take(n as int), pinned) == Seq::new(n, |i: int| i).filter(
            |i: int| !pinned.contains(i as usize),
        ).map_values(|i: int| known[i]),
    decreases n,
{
    reveal(Seq::filter);
    let free = |i: int| !pinned.contains(i as usize);
    let word = |i: int| known[i];
    let all = Seq::new(n, |i: int| i);
    if n > 0 {
        let less = (n - 1) as nat;
        lemma_movable_prefix(known, pinned, less);
        assert(known.take(n as int).drop_last() =~= known.take(n - 1));
        assert(known.take(n as int).last() == known[n - 1]);
        assert(all.drop_last() =~= Seq::new(less, |i: int| i));
        assert(all.last() == n - 1);
        crate::places::number_stands_in_the_list(pinned, n - 1);
    }
    assert(movable_words(known.take(n as int), pinned) =~= all.filter(free).map_values(word));
}

/// Word mode goes through the orders of the known words, and around each of them through all
/// sequences that come from it.
pub proof fn word_candidates_come_order_by_order(
    known: Seq<Seq<char>>,
    pinned: Seq<usize>,
    missing: nat,
    list: Seq<Seq<char>>,
    i: int,
    k: int,
)
    requires
        0 <= i < pinned_orders(known, pinned).len(),
        0 <= k < insertions(pinned_orders(known, pinned)[i], missing, list).len(),
    ensures
        ({
            let each = rising(known.len(), missing) * pow(list.len() as int, missing);
            &&& 0 <= i * each + k < word_candidates(known, pinned, missing, list).len()
            &&& word_candidates(known, pinned, missing, list)[i * each + k] == insertions(
                pinned_orders(known, pinned)[i],
                missing,
                list,
            )[k]
        }),
{
    let orders = pinned_orders(known, pinned);
    let f = insertions_of(orders, missing, list);
    let each = rising(known.len(), missing) * pow(list.len() as int, missing);
    assert forall|j: int| 0 <= j < orders.len() implies (#[trigger] f(j)).len() == each by {
        assert(orders[j].len() == known.len());
        insertions_count(orders[j], missing, list);
    }
    assert(f(i).len() == each);
    lemma_concat_block(0, orders.len() as int, f, each as nat, i, k);
}

/// Candidates are filled in order by order of the words to permute, the written order alone where it
/// is kept, and in each order with the unknown words counted through.
pub proof fn candidates_are_filled_in_blocks(
    movable: Seq<u16>,
    pinned: Seq<(usize, u16)>,
    miss: Seq<usize>,
    total: nat,
    keep_word_order: bool,
    wl_len: usize,
    i: int,
    j: int,
)
    requires
        wl_len <= u16::MAX,
        0 <= i < (if keep_word_order {
            1
        } else {
            permutations(movable).len()
        }),
        0 <= j < code_tuples(wl_len as u16, miss.len()).len(),
    ensures
        ({
            let each = code_tuples(wl_len as u16, miss.len()).len();
            let all = candidate_list(movable, pinned, miss, total, keep_word_order, wl_len);
            &&& all.len() == (if keep_word_order {
                1
            } else {
                permutations(movable).len()
            }) * each
            &&& 0 <= i * each + j < all.len()
            &&& all[i * each + j] == filled(
                if keep_word_order {
                    movable
                } else {
                    permutations(movable)[i]
                },
                pinned,
                code_tuples(wl_len as u16, miss.len())[j],
                miss,
                total,
            )
        }),
{
    let orders = word_orders(movable, keep_word_order);
    let each = code_tuples(wl_len as u16, miss.len()).len();
    let f = candidates_of_order(orders, pinned, miss, total, wl_len);
    assert forall|a: int| 0 <= a < orders.len() implies (#[trigger] f(a)).len() == each by {}
    lemma_concat_block(0, orders.len() as int, f, each, i, j);
    crate::listing::lemma_concat_len(0, orders.len() as int, f, each);
}

/// The candidates of an alternative come order by order of its words, first the one in which they
/// are written, and in each order with the unknown words counted through.
pub proof fn candidates_come_order_by_order(
    alt: Seq<TokenView>,
    list: Seq<Seq<char>>,
    keep_word_order: bool,
    i: int,
    j: int,
)
    requires
        alt.len() <= usize::MAX,
        list.len() <= u16::MAX,
        0 <= i < (if keep_word_order {
            1
        } else {
            permutations(movable_codes(alt, list)).len()
        }),
        0 <= j < pow(list.len() as int, missing_positions(alt).len()),
    ensures
        ({
            let each = pow(list.len() as int, missing_positions(alt).len());
            let all = alternative_candidates(alt, list, keep_word_order);
            &&& 0 <= i * each + j < all.len()
            &&& at_words(alt, all[i * each + j]) == permutations(movable_codes(alt, list))[i]
            &&& at_missing(alt, all[i * each + j]) == code_tuples(
                list.len() as u16,
                missing_positions(alt).len(),
            )[j]
            &&& i == 0 ==> at_words(alt, all[i * each + j]) == movable_codes(alt, list)
        }),
{
    let movable = movable_codes(alt, list);
    let pinned = pinned_codes(alt, list);
    let miss = missing_positions(alt);
    let n = list.len() as usize as u16;
    assert(n == list.len());
    let orders = word_orders(movable, keep_word_order);
    let combos = code_tuples(n, miss.len());
    let f = candidates_of_order(orders, pinned, miss, alt.len(), list.len() as usize);
    let radix = Seq::new(miss.len(), |i: int| n as int);
    let each = pow(list.len() as int, miss.len());
    lemma_tuples_len(radix);
    lemma_equal_product(n as int, miss.len());
    lemma_permutations_first(movable);
    assert forall|a: int| 0 <= a < orders.len() implies (#[trigger] f(a)).len() == each by {}
    lemma_concat_block(0, orders.len() as int, f, each as nat, i, j);
    let kp = orders[i];
    let mv = combos[j];
    assert(kp == permutations(movable)[i]);
    assert(permutations(movable).contains(kp));
    lemma_permutations_sound(movable, kp);
    assert(combos.contains(mv));
    crate::laws::candidates::code_tuples_are_all(n, miss.len(), mv);
    let c = filled(kp, pinned, mv, miss, alt.len());
    assert(f(i)[j] == c);
    lemma_filled_reads_back(alt, list, kp, mv, alt.len() as int);
    assert(alt.take(alt.len() as int) =~= alt);
    assert(c.take(c.len() as int) =~= c);
    assert(kp.take(kp.len() as int) =~= kp);
    assert(mv.take(mv.len() as int) =~= mv);
}

} // verus!
