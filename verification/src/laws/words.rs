//! Laws of word mode.
use vstd::multiset::Multiset;
use vstd::prelude::*;

use crate::listing::{
    lemma_concat_contains, lemma_permutations_complete, lemma_permutations_sound, permutations,
};
use crate::places::{count, free_at, has_number, lemma_count_bounds};
use crate::text::{is_whitespace, joined, nonempty, pieces, words, Separator};
use crate::tokens::{lemma_position, position};
use crate::word_mode::{
    insertions, insertions_by_gap, insertions_by_word, insertions_of, lemma_movable_len,
    movable_words, phrase_line, phrase_lines, pinned_indices, pinned_orders, placed, unpinned_words,
    word_candidates,
};
use crate::word_report::{first_unknown, recovered, word_numbers, words_at};

verus! {

////// Orders of the known words

/// An order of the words that leaves the pinned ones in place.
pub open spec fn is_pinned_order(
    words: Seq<Seq<char>>,
    pinned: Seq<usize>,
    o: Seq<Seq<char>>,
) -> bool {
    &&& o.len() == words.len()
    &&& o.to_multiset() == words.to_multiset()
    &&& forall|i: int| 0 <= i < o.len() && has_number(pinned, i) ==> #[trigger] o[i] == words[i]
}

/// The pinned words, in order.
spec fn pinned_part(words: Seq<Seq<char>>, pinned: Seq<usize>) -> Seq<Seq<char>>
    decreases words.len(),
{
    if words.len() == 0 {
        Seq::empty()
    } else if has_number(pinned, words.len() - 1) {
        pinned_part(words.drop_last(), pinned).push(words.last())
    } else {
        pinned_part(words.drop_last(), pinned)
    }
}

proof fn lemma_parts(words: Seq<Seq<char>>, pinned: Seq<usize>)
    ensures
        words.to_multiset() == movable_words(words, pinned).to_multiset().add(
            pinned_part(words, pinned).to_multiset(),
        ),
    decreases words.len(),
{
    broadcast use vstd::seq_lib::group_to_multiset_ensures;

    let m = movable_words(words, pinned);
    let p = pinned_part(words, pinned);
    if words.len() == 0 {
        assert(words.to_multiset() =~= m.to_multiset().add(p.to_multiset()));
    } else {
        let less = words.drop_last();
        lemma_parts(less, pinned);
        assert(words =~= less.push(words.last()));
        let m0 = movable_words(less, pinned);
        let p0 = pinned_part(less, pinned);
        assert(words.to_multiset() =~= less.to_multiset().insert(words.last()));
        if has_number(pinned, words.len() - 1) {
            assert(p.to_multiset() =~= p0.to_multiset().insert(words.last()));
        } else {
            assert(m.to_multiset() =~= m0.to_multiset().insert(words.last()));
        }
        assert(words.to_multiset() =~= m.to_multiset().add(p.to_multiset()));
    }
}

proof fn lemma_same_pins(a: Seq<Seq<char>>, b: Seq<Seq<char>>, pinned: Seq<usize>)
    requires
        a.len() == b.len(),
        forall|i: int| 0 <= i < a.len() && has_number(pinned, i) ==> #[trigger] a[i] == b[i],
    ensures
        pinned_part(a, pinned) == pinned_part(b, pinned),
    decreases a.len(),
{
    if a.len() > 0 {
        let x = a.drop_last();
        let y = b.drop_last();
        assert forall|i: int| 0 <= i < x.len() && has_number(pinned, i) implies #[trigger] x[i]
            == y[i] by {
            assert(a[i] == b[i]);
        }
        lemma_same_pins(x, y, pinned);
        if has_number(pinned, a.len() - 1) {
            assert(a[a.len() - 1] == b[a.len() - 1]);
        }
    }
}

proof fn lemma_movable_at(o: Seq<Seq<char>>, pinned: Seq<usize>, i: int)
    requires
        0 <= i < o.len(),
        !has_number(pinned, i),
    ensures
        0 <= count(i, free_at(pinned)) < movable_words(o, pinned).len(),
        movable_words(o, pinned)[count(i, free_at(pinned))] == o[i],
    decreases o.len(),
{
    let free = free_at(pinned);
    assert(free(i));
    lemma_count_bounds(0, i, free);
    lemma_movable_len(o.drop_last(), pinned);
    lemma_movable_len(o, pinned);
    if i < o.len() - 1 {
        lemma_movable_at(o.drop_last(), pinned, i);
    }
}

/// The words that an order puts at the free places are those of the order, one behind the other.
pub proof fn lemma_placed_prefix(
    words: Seq<Seq<char>>,
    pinned: Seq<usize>,
    order: Seq<Seq<char>>,
    n: int,
)
    requires
        0 <= n <= words.len(),
        order.len() == count(words.len() as int, free_at(pinned)),
    ensures
        movable_words(placed(words, pinned, order).take(n), pinned) == order.take(
            count(n, free_at(pinned)),
        ),
        0 <= count(n, free_at(pinned)) <= order.len(),
    decreases n,
{
    let free = free_at(pinned);
    let all = placed(words, pinned, order);
    lemma_count_bounds(n, words.len() as int, free);
    lemma_count_bounds(0, n, free);
    if n > 0 {
        lemma_placed_prefix(words, pinned, order, n - 1);
        assert(all.take(n).drop_last() =~= all.take(n - 1));
        assert(all.take(n).last() == all[n - 1]);
        if has_number(pinned, n - 1) {
            assert(!free(n - 1));
        } else {
            assert(free(n - 1));
            let c = count(n - 1, free);
            assert(order.take(c + 1) =~= order.take(c).push(order[c]));
        }
    } else {
        assert(all.take(0) =~= Seq::empty());
        assert(order.take(0) =~= Seq::empty());
    }
}

/// The pinned words are those that start and end with a double quote and are at least two
/// characters long. Their indices are listed in increasing order, and they alone lose their quotes.
pub proof fn pinned_words_are_the_quoted_ones(given: Seq<Seq<char>>, i: int)
    requires
        given.len() <= usize::MAX,
        0 <= i < given.len(),
    ensures
        pinned_indices(given).contains(i as usize) <==> given[i].len() >= 2 && given[i][0] == '"'
            && given[i][given[i].len() - 1] == '"',
        forall|k: int|
            0 <= k < pinned_indices(given).len() ==> (#[trigger] pinned_indices(given)[k])
                < given.len(),
        forall|k: int, l: int|
            0 <= k < l < pinned_indices(given).len() ==> #[trigger] pinned_indices(given)[k]
                < #[trigger] pinned_indices(given)[l],
        unpinned_words(given).len() == given.len(),
        if given[i].len() >= 2 && given[i][0] == '"' && given[i][given[i].len() - 1] == '"' {
            given[i] == seq!['"'] + unpinned_words(given)[i] + seq!['"']
        } else {
            unpinned_words(given)[i] == given[i]
        },
    decreases given.len(),
{
    let now = pinned_indices(given);
    let less = given.drop_last();
    let was = pinned_indices(less);
    let n = less.len() as int;
    if n > 0 {
        pinned_words_are_the_quoted_ones(less, if i < n { i } else { 0 });
    }
    assert forall|k: int| 0 <= k < now.len() implies (#[trigger] now[k]) < given.len() by {
        if k < was.len() {
            assert(was[k] == now[k]);
        }
    }
    assert forall|k: int, l: int| 0 <= k < l < now.len() implies #[trigger] now[k]
        < #[trigger] now[l] by {
        assert(was[k] == now[k]);
        if l < was.len() {
            assert(was[l] == now[l]);
        }
    }
    if was.contains(i as usize) {
        let k = was.index_of(i as usize);
        assert(now[k] == i as usize);
    }
    if now.contains(i as usize) {
        let k = now.index_of(i as usize);
        if k < was.len() {
            assert(was[k] == i as usize);
            assert(was.contains(i as usize));
        }
    }
    if i == n && now.len() > was.len() {
        assert(now[now.len() - 1] == i as usize);
    }
    if given[i].len() >= 2 && given[i][0] == '"' && given[i][given[i].len() - 1] == '"' {
        assert(given[i] =~= seq!['"'] + unpinned_words(given)[i] + seq!['"']);
    }
}

/// Every order that leaves the pinned words in place is tried, and no other one. Without pinned
/// words these are all orders of the known words.
pub proof fn pinned_orders_are_all(words: Seq<Seq<char>>, pinned: Seq<usize>, o: Seq<Seq<char>>)
    ensures
        pinned_orders(words, pinned).contains(o) <==> is_pinned_order(words, pinned, o),
{
    let movable = movable_words(words, pinned);
    let put = |order: Seq<Seq<char>>| placed(words, pinned, order);
    let orders = permutations(movable);
    lemma_movable_len(words, pinned);
    lemma_parts(words, pinned);
    lemma_parts(o, pinned);
    if pinned_orders(words, pinned).contains(o) {
        let k = pinned_orders(words, pinned).index_of(o);
        let order = orders[k];
        assert(o == put(order));
        assert(orders.contains(order));
        lemma_permutations_sound(movable, order);
        lemma_placed_prefix(words, pinned, order, words.len() as int);
        assert(o.take(o.len() as int) =~= o);
        assert(order.take(order.len() as int) =~= order);
        assert(movable_words(o, pinned) == order);
        lemma_same_pins(o, words, pinned);
        assert(o.to_multiset() =~= words.to_multiset());
    }
    if is_pinned_order(words, pinned, o) {
        let order = movable_words(o, pinned);
        lemma_same_pins(o, words, pinned);
        let rest = pinned_part(o, pinned).to_multiset();
        assert(order.to_multiset() =~= movable.to_multiset()) by {
            assert forall|x: Seq<char>| order.to_multiset().count(x) == movable.to_multiset().count(
                x,
            ) by {
                assert(o.to_multiset().count(x) == order.to_multiset().count(x) + rest.count(x));
                assert(words.to_multiset().count(x) == movable.to_multiset().count(x) + rest.count(
                    x,
                ));
            }
        }
        lemma_permutations_complete(movable, order);
        let k = orders.index_of(order);
        assert forall|i: int| 0 <= i < o.len() implies #[trigger] put(order)[i] == o[i] by {
            if !has_number(pinned, i) {
                lemma_movable_at(o, pinned, i);
            }
        }
        assert(put(order) =~= o);
        assert(pinned_orders(words, pinned)[k] == o);
    }
}

/// The orders that are tried have the known words, each as often as it is known, and at each pinned
/// index the word that is given there; and every such order is tried.
pub proof fn orders_leave_the_pinned_words(
    known: Seq<Seq<char>>,
    pinned: Seq<usize>,
    o: Seq<Seq<char>>,
)
    ensures
        pinned_orders(known, pinned).contains(o) <==> {
            &&& o.to_multiset() == known.to_multiset()
            &&& forall|k: int|
                0 <= k < pinned.len() && (#[trigger] pinned[k]) < known.len()
                    ==> o[pinned[k] as int] == known[pinned[k] as int]
        },
{
    broadcast use vstd::seq_lib::group_to_multiset_ensures;

    pinned_orders_are_all(known, pinned, o);
    assert(o.len() == o.to_multiset().len());
    assert(known.len() == known.to_multiset().len());
    if is_pinned_order(known, pinned, o) {
        assert forall|k: int| 0 <= k < pinned.len() && (#[trigger] pinned[k])
            < known.len() implies o[pinned[k] as int] == known[pinned[k] as int] by {
            assert(has_number(pinned, pinned[k] as int));
        }
    }
    if o.to_multiset() == known.to_multiset() && (forall|k: int|
        0 <= k < pinned.len() && (#[trigger] pinned[k]) < known.len() ==> o[pinned[k] as int]
            == known[pinned[k] as int]) {
        assert forall|i: int| 0 <= i < o.len() && has_number(
            pinned,
            i,
        ) implies #[trigger] o[i] == known[i] by {
            let k = choose|k: int| 0 <= k < pinned.len() && #[trigger] pinned[k] == i;
            assert(pinned[k] < known.len());
        }
    }
}

////// Missing words

/// The words of `base` stand in `t` in the same order, and all other words of `t` are in the list.
pub open spec fn is_filled(base: Seq<Seq<char>>, t: Seq<Seq<char>>, list: Seq<Seq<char>>) -> bool
    decreases t.len(),
{
    if t.len() == 0 {
        base.len() == 0
    } else {
        ||| base.len() > 0 && base.last() == t.last() && is_filled(
            base.drop_last(),
            t.drop_last(),
            list,
        )
        ||| list.contains(t.last()) && is_filled(base, t.drop_last(), list)
    }
}

proof fn lemma_filled_len(base: Seq<Seq<char>>, t: Seq<Seq<char>>, list: Seq<Seq<char>>)
    requires
        is_filled(base, t, list),
    ensures
        base.len() <= t.len(),
        base.len() == t.len() ==> base == t,
    decreases t.len(),
{
    if t.len() > 0 {
        if base.len() > 0 && base.last() == t.last() && is_filled(
            base.drop_last(),
            t.drop_last(),
            list,
        ) {
            lemma_filled_len(base.drop_last(), t.drop_last(), list);
            if base.len() == t.len() {
                assert(base =~= base.drop_last().push(base.last()));
                assert(t =~= t.drop_last().push(t.last()));
            }
        } else {
            lemma_filled_len(base, t.drop_last(), list);
        }
    } else {
        assert(base =~= t);
    }
}

proof fn lemma_filled_self(t: Seq<Seq<char>>, list: Seq<Seq<char>>)
    ensures
        is_filled(t, t, list),
    decreases t.len(),
{
    if t.len() > 0 {
        lemma_filled_self(t.drop_last(), list);
    }
}

/// Where `t` has more words than `base`, one of them can be put into `base`.
proof fn lemma_filled_grow(base: Seq<Seq<char>>, t: Seq<Seq<char>>, list: Seq<Seq<char>>) -> (r: (
    int,
    int,
))
    requires
        is_filled(base, t, list),
        base.len() < t.len(),
    ensures
        0 <= r.0 <= base.len(),
        0 <= r.1 < list.len(),
        is_filled(base.insert(r.0, list[r.1]), t, list),
    decreases t.len(),
{
    let shorter = t.drop_last();
    if base.len() > 0 && base.last() == t.last() && is_filled(base.drop_last(), shorter, list) {
        let less = base.drop_last();
        let (gap, w) = lemma_filled_grow(less, shorter, list);
        let grown = base.insert(gap, list[w]);
        assert(grown.last() == base.last());
        assert(grown.drop_last() =~= less.insert(gap, list[w]));
        (gap, w)
    } else {
        let w = list.index_of(t.last());
        let grown = base.insert(base.len() as int, list[w]);
        assert(grown.drop_last() =~= base);
        assert(grown.last() == t.last());
        (base.len() as int, w)
    }
}

/// A word of the list that was put into `base` can be taken out of it again.
proof fn lemma_filled_shrink(
    base: Seq<Seq<char>>,
    gap: int,
    w: Seq<char>,
    t: Seq<Seq<char>>,
    list: Seq<Seq<char>>,
)
    requires
        0 <= gap <= base.len(),
        list.contains(w),
        is_filled(base.insert(gap, w), t, list),
    ensures
        is_filled(base, t, list),
    decreases t.len(),
{
    let grown = base.insert(gap, w);
    lemma_filled_len(grown, t, list);
    let shorter = t.drop_last();
    if grown.last() == t.last() && is_filled(grown.drop_last(), shorter, list) {
        if gap == base.len() {
            assert(grown.drop_last() =~= base);
            assert(t.last() == w);
        } else {
            let less = base.drop_last();
            assert(grown.drop_last() =~= less.insert(gap, w));
            lemma_filled_shrink(less, gap, w, shorter, list);
            assert(grown.last() == base.last());
        }
    } else {
        lemma_filled_shrink(base, gap, w, shorter, list);
    }
}

/// Every sequence that has `missing` more words than the base, keeps the base's words in their
/// order and has words of the list for the others is tried, and no other one.
pub proof fn insertions_are_all(
    base: Seq<Seq<char>>,
    missing: nat,
    list: Seq<Seq<char>>,
    t: Seq<Seq<char>>,
)
    ensures
        insertions(base, missing, list).contains(t) <==> t.len() == base.len() + missing
            && is_filled(base, t, list),
    decreases missing,
{
    let all = insertions(base, missing, list);
    if missing == 0 {
        assert(all[0] == base);
        if all.contains(t) {
            lemma_filled_self(t, list);
        }
        if t.len() == base.len() && is_filled(base, t, list) {
            lemma_filled_len(base, t, list);
        }
    } else {
        let less = (missing - 1) as nat;
        let by_gap = insertions_by_gap(base, missing, list);
        let gaps = base.len() + 1;
        lemma_concat_contains(0, gaps as int, by_gap, t);
        if all.contains(t) {
            let gap = choose|gap: int| 0 <= gap < gaps && #[trigger] by_gap(gap).contains(t);
            let by_word = insertions_by_word(base, gap, missing, list);
            lemma_concat_contains(0, list.len() as int, by_word, t);
            let w = choose|w: int| 0 <= w < list.len() && #[trigger] by_word(w).contains(t);
            insertions_are_all(base.insert(gap, list[w]), less, list, t);
            assert(list.contains(list[w]));
            lemma_filled_shrink(base, gap, list[w], t, list);
        }
        if t.len() == base.len() + missing && is_filled(base, t, list) {
            let (gap, w) = lemma_filled_grow(base, t, list);
            let by_word = insertions_by_word(base, gap, missing, list);
            insertions_are_all(base.insert(gap, list[w]), less, list, t);
            lemma_concat_contains(0, list.len() as int, by_word, t);
            assert(by_word(w).contains(t));
            assert(by_gap(gap).contains(t));
        }
    }
}

/// The places where the words of a base stand in a longer sequence.
spec fn stand_at(
    base: Seq<Seq<char>>,
    t: Seq<Seq<char>>,
    list: Seq<Seq<char>>,
    at: Seq<int>,
) -> bool {
    &&& at.len() == base.len()
    &&& forall|i: int| 0 <= i < at.len() ==> 0 <= #[trigger] at[i] < t.len() && t[at[i]] == base[i]
    &&& forall|i: int, j: int| 0 <= i < j < at.len() ==> #[trigger] at[i] < #[trigger] at[j]
    &&& forall|q: int|
        0 <= q < t.len() && !at.contains(q) ==> list.contains(#[trigger] t[q])
}

proof fn lemma_filled_stands(base: Seq<Seq<char>>, t: Seq<Seq<char>>, list: Seq<Seq<char>>) -> (at:
    Seq<int>)
    requires
        is_filled(base, t, list),
    ensures
        stand_at(base, t, list, at),
    decreases t.len(),
{
    if t.len() == 0 {
        Seq::empty()
    } else {
        let shorter = t.drop_last();
        let last = t.len() - 1;
        if base.len() > 0 && base.last() == t.last() && is_filled(
            base.drop_last(),
            shorter,
            list,
        ) {
            let less = base.drop_last();
            let was = lemma_filled_stands(less, shorter, list);
            let at = was.push(last);
            assert forall|i: int| 0 <= i < at.len() implies 0 <= #[trigger] at[i] < t.len()
                && t[at[i]] == base[i] by {
                if i < was.len() {
                    assert(was[i] == at[i]);
                    assert(shorter[was[i]] == less[i]);
                }
            }
            assert forall|i: int, j: int| 0 <= i < j < at.len() implies #[trigger] at[i]
                < #[trigger] at[j] by {
                assert(was[i] == at[i]);
                if j < was.len() {
                    assert(was[j] == at[j]);
                }
            }
            assert forall|q: int| 0 <= q < t.len() && !at.contains(q) implies list.contains(
                #[trigger] t[q],
            ) by {
                assert(at[at.len() - 1] == last);
                assert(q < last);
                assert(shorter[q] == t[q]);
                if was.contains(q) {
                    let i = was.index_of(q);
                    assert(at[i] == q);
                }
            }
            at
        } else {
            let at = lemma_filled_stands(base, shorter, list);
            assert forall|i: int| 0 <= i < at.len() implies 0 <= #[trigger] at[i] < t.len()
                && t[at[i]] == base[i] by {
                assert(shorter[at[i]] == base[i]);
            }
            assert forall|q: int| 0 <= q < t.len() && !at.contains(q) implies list.contains(
                #[trigger] t[q],
            ) by {
                if q < last {
                    assert(shorter[q] == t[q]);
                }
            }
            at
        }
    }
}

proof fn lemma_stands_filled(
    base: Seq<Seq<char>>,
    t: Seq<Seq<char>>,
    list: Seq<Seq<char>>,
    at: Seq<int>,
)
    requires
        stand_at(base, t, list, at),
    ensures
        is_filled(base, t, list),
    decreases t.len(),
{
    if t.len() == 0 {
        if at.len() > 0 {
            assert(0 <= at[0] < t.len());
        }
    } else {
        let shorter = t.drop_last();
        let last = t.len() - 1;
        if at.len() > 0 && at.last() == last {
            let was = at.drop_last();
            let less = base.drop_last();
            assert(t[at[at.len() - 1]] == base[at.len() - 1]);
            assert forall|i: int| 0 <= i < was.len() implies 0 <= #[trigger] was[i] < shorter.len()
                && shorter[was[i]] == less[i] by {
                assert(at[i] < at[at.len() - 1]);
                assert(t[at[i]] == base[i]);
            }
            assert forall|i: int, j: int| 0 <= i < j < was.len() implies #[trigger] was[i]
                < #[trigger] was[j] by {
                assert(at[i] < at[j]);
            }
            assert forall|q: int| 0 <= q < shorter.len() && !was.contains(q) implies list.contains(
                #[trigger] shorter[q],
            ) by {
                assert(shorter[q] == t[q]);
                if at.contains(q) {
                    let i = at.index_of(q);
                    assert(was[i] == q);
                }
            }
            lemma_stands_filled(less, shorter, list, was);
        } else {
            assert forall|i: int| 0 <= i < at.len() implies #[trigger] at[i] < last by {
                if i < at.len() - 1 {
                    assert(at[i] < at[at.len() - 1]);
                }
                assert(0 <= at[at.len() - 1] < t.len());
            }
            if at.contains(last) {
                let i = at.index_of(last);
                assert(at[i] < last);
            }
            assert(list.contains(t[last]));
            assert forall|i: int| 0 <= i < at.len() implies 0 <= #[trigger] at[i] < shorter.len()
                && shorter[at[i]] == base[i] by {
                assert(t[at[i]] == base[i]);
            }
            assert forall|q: int| 0 <= q < shorter.len() && !at.contains(q) implies list.contains(
                #[trigger] shorter[q],
            ) by {
                assert(shorter[q] == t[q]);
            }
            lemma_stands_filled(base, shorter, list, at);
        }
    }
}

/// A sequence that has `missing` words more than a base is tried exactly if the words of the base
/// stand in it, one behind the other, and at every other place a word of the list.
pub proof fn base_stands_in_what_is_tried(
    base: Seq<Seq<char>>,
    missing: nat,
    list: Seq<Seq<char>>,
    t: Seq<Seq<char>>,
)
    ensures
        insertions(base, missing, list).contains(t) <==> t.len() == base.len() + missing && exists|
            at: Seq<int>,
        |
            #![trigger at.len()]
            at.len() == base.len() && (forall|i: int|
                0 <= i < at.len() ==> 0 <= #[trigger] at[i] < t.len() && t[at[i]] == base[i]) && (
            forall|i: int, j: int|
                0 <= i < j < at.len() ==> #[trigger] at[i] < #[trigger] at[j]) && (forall|q: int|
                0 <= q < t.len() && !at.contains(q) ==> list.contains(#[trigger] t[q])),
{
    insertions_are_all(base, missing, list, t);
    if is_filled(base, t, list) {
        let at = lemma_filled_stands(base, t, list);
        assert(at.len() == base.len());
    }
    if exists|at: Seq<int>|
        #![trigger at.len()]
        at.len() == base.len() && (forall|i: int|
            0 <= i < at.len() ==> 0 <= #[trigger] at[i] < t.len() && t[at[i]] == base[i]) && (
        forall|i: int, j: int|
            0 <= i < j < at.len() ==> #[trigger] at[i] < #[trigger] at[j]) && (forall|q: int|
            0 <= q < t.len() && !at.contains(q) ==> list.contains(#[trigger] t[q])) {
        let at = choose|at: Seq<int>|
            #![trigger at.len()]
            at.len() == base.len() && (forall|i: int|
                0 <= i < at.len() ==> 0 <= #[trigger] at[i] < t.len() && t[at[i]] == base[i]) && (
            forall|i: int, j: int|
                0 <= i < j < at.len() ==> #[trigger] at[i] < #[trigger] at[j]) && (forall|q: int|
                0 <= q < t.len() && !at.contains(q) ==> list.contains(#[trigger] t[q]));
        lemma_stands_filled(base, t, list, at);
    }
}

/// What word mode tries are the sequences that come from one of the orders of the known words by
/// putting words of the list in.
pub proof fn word_candidates_come_from_orders(
    known: Seq<Seq<char>>,
    pinned: Seq<usize>,
    missing: nat,
    list: Seq<Seq<char>>,
    t: Seq<Seq<char>>,
)
    ensures
        word_candidates(known, pinned, missing, list).contains(t) <==> exists|o: Seq<Seq<char>>|
            #[trigger] pinned_orders(known, pinned).contains(o) && insertions(
                o,
                missing,
                list,
            ).contains(t),
{
    let orders = pinned_orders(known, pinned);
    let f = insertions_of(orders, missing, list);
    lemma_concat_contains(0, orders.len() as int, f, t);
    if word_candidates(known, pinned, missing, list).contains(t) {
        let i = choose|i: int| 0 <= i < orders.len() && #[trigger] f(i).contains(t);
        assert(orders.contains(orders[i]));
    }
    if exists|o: Seq<Seq<char>>| #[trigger]
        orders.contains(o) && insertions(o, missing, list).contains(t) {
        let o = choose|o: Seq<Seq<char>>| #[trigger]
            orders.contains(o) && insertions(o, missing, list).contains(t);
        let i = orders.index_of(o);
        assert(f(i).contains(t));
    }
}

/// Word mode tries exactly the sequences that have `missing` more words than are known, keep the
/// known words in an order that leaves the pinned ones in place among them, and have words of the
/// list for the others.
pub proof fn word_candidates_are_all(
    known: Seq<Seq<char>>,
    pinned: Seq<usize>,
    missing: nat,
    list: Seq<Seq<char>>,
    t: Seq<Seq<char>>,
)
    ensures
        word_candidates(known, pinned, missing, list).contains(t) <==> t.len() == known.len()
            + missing && exists|o: Seq<Seq<char>>| #[trigger]
            is_pinned_order(known, pinned, o) && is_filled(o, t, list),
{
    let orders = pinned_orders(known, pinned);
    let f = insertions_of(orders, missing, list);
    lemma_concat_contains(0, orders.len() as int, f, t);
    if word_candidates(known, pinned, missing, list).contains(t) {
        let i = choose|i: int| 0 <= i < orders.len() && #[trigger] f(i).contains(t);
        let o = orders[i];
        assert(orders.contains(o));
        pinned_orders_are_all(known, pinned, o);
        insertions_are_all(o, missing, list, t);
        assert(is_pinned_order(known, pinned, o) && is_filled(o, t, list));
    }
    if t.len() == known.len() + missing && exists|o: Seq<Seq<char>>| #[trigger]
        is_pinned_order(known, pinned, o) && is_filled(o, t, list) {
        let o = choose|o: Seq<Seq<char>>| #[trigger]
            is_pinned_order(known, pinned, o) && is_filled(o, t, list);
        pinned_orders_are_all(known, pinned, o);
        insertions_are_all(o, missing, list, t);
        let i = orders.index_of(o);
        assert(f(i).contains(t));
    }
}

/// When no word is missing, a pinned word stands in every phrase where it stands among the known
/// words.
pub proof fn pinned_word_keeps_its_place(
    known: Seq<Seq<char>>,
    pinned: Seq<usize>,
    list: Seq<Seq<char>>,
    t: Seq<Seq<char>>,
    i: int,
)
    requires
        word_candidates(known, pinned, 0, list).contains(t),
        0 <= i < known.len(),
        has_number(pinned, i),
    ensures
        t.len() == known.len(),
        t[i] == known[i],
{
    word_candidates_are_all(known, pinned, 0, list, t);
    let o = choose|o: Seq<Seq<char>>| #[trigger]
        is_pinned_order(known, pinned, o) && is_filled(o, t, list);
    lemma_filled_len(o, t, list);
    assert(o[i] == known[i]);
}

////// Recovered words

/// The recovered words are those of the phrase with the known ones taken off, each as often as it
/// is known.
pub proof fn recovered_is_the_difference(known: Seq<Seq<char>>, ws: Seq<Seq<char>>)
    ensures
        recovered(known, ws).to_multiset() == ws.to_multiset().sub(known.to_multiset()),
    decreases ws.len(),
{
    broadcast use vstd::seq_lib::group_to_multiset_ensures;

    let r = recovered(known, ws);
    if ws.len() == 0 {
        assert(r.to_multiset() =~= ws.to_multiset().sub(known.to_multiset()));
    } else {
        let w = ws[0];
        let rest = ws.drop_first();
        assert(ws =~= seq![w] + rest);
        assert(ws.remove(0) =~= rest);
        assert(ws.to_multiset() =~= rest.to_multiset().insert(w));
        lemma_position(known, w);
        match position(known, w) {
            Some(p) => {
                let less = known.remove(p);
                recovered_is_the_difference(less, rest);
                assert(less.to_multiset() =~= known.to_multiset().remove(w));
                assert(known.to_multiset().count(w) > 0) by {
                    assert(known.contains(known[p]));
                }
            },
            None => {
                recovered_is_the_difference(known, rest);
                let tail = recovered(known, rest);
                assert(r.remove(0) =~= tail);
                assert(r[0] == w);
                assert(r.to_multiset() =~= tail.to_multiset().insert(w));
                assert(!known.contains(w));
                assert(known.to_multiset().count(w) == 0);
            },
        }
        assert(r.to_multiset() =~= ws.to_multiset().sub(known.to_multiset()));
    }
}

proof fn lemma_recovered_push(known: Seq<Seq<char>>, ws: Seq<Seq<char>>, w: Seq<char>)
    ensures
        recovered(known, ws.push(w)) == if ws.push(w).to_multiset().count(w)
            > known.to_multiset().count(w) {
            recovered(known, ws).push(w)
        } else {
            recovered(known, ws)
        },
    decreases ws.len(),
{
    broadcast use vstd::seq_lib::group_to_multiset_ensures;

    let all = ws.push(w);
    reveal_with_fuel(recovered, 2);
    lemma_position(known, all[0]);
    if ws.len() == 0 {
        assert(all.drop_first() =~= Seq::empty());
        assert(ws =~= Seq::empty());
        assert(all.to_multiset().count(w) == 1);
        match position(known, w) {
            Some(p) => {
                assert(known.contains(known[p]));
                assert(known.to_multiset().count(w) > 0);
            },
            None => {
                assert(!known.contains(w));
                assert(known.to_multiset().count(w) == 0);
                assert(recovered(known, all) =~= recovered(known, ws).push(w));
            },
        }
    } else {
        let x = ws[0];
        let rest = ws.drop_first();
        assert(all.drop_first() =~= rest.push(w));
        assert(all.remove(0) =~= rest.push(w));
        assert(all.to_multiset() =~= rest.push(w).to_multiset().insert(x));
        match position(known, x) {
            Some(p) => {
                let less = known.remove(p);
                lemma_recovered_push(less, rest, w);
                assert(less.to_multiset() =~= known.to_multiset().remove(x));
                assert(known.contains(known[p]));
                assert(known.to_multiset().count(x) > 0);
            },
            None => {
                lemma_recovered_push(known, rest, w);
                assert(!known.contains(x));
                assert(known.to_multiset().count(x) == 0);
                let one = rest.push(w);
                assert(one[rest.len() as int] == w);
                assert(one.contains(w));
                assert(one.to_multiset().count(w) > 0);
                assert(recovered(known, all) =~= if all.to_multiset().count(w)
                    > known.to_multiset().count(w) {
                    recovered(known, ws).push(w)
                } else {
                    recovered(known, ws)
                });
            },
        }
    }
}

/// The recovered words stand in the order of the phrase: a word of the phrase is recovered exactly if
/// it has occurred up to there more often than it is known.
pub proof fn recovered_words_in_order(known: Seq<Seq<char>>, ws: Seq<Seq<char>>)
    ensures
        recovered(known, ws) == Seq::new(ws.len(), |i: int| i).filter(
            |i: int|
                ws.take(i + 1).to_multiset().count(ws[i]) > known.to_multiset().count(ws[i]),
        ).map_values(|i: int| ws[i]),
{
    lemma_recovered_prefix(known, ws, ws.len());
    assert(ws.take(ws.len() as int) =~= ws);
}

proof fn lemma_recovered_prefix(known: Seq<Seq<char>>, ws: Seq<Seq<char>>, n: nat)
    requires
        n <= ws.len(),
    ensures
        recovered(known, ws.take(n as int)) == Seq::new(n, |i: int| i).filter(
            |i: int|
                ws.take(i + 1).to_multiset().count(ws[i]) > known.to_multiset().count(ws[i]),
        ).map_values(|i: int| ws[i]),
    decreases n,
{
    reveal(Seq::filter);
    let kept = |i: int|
        ws.take(i + 1).to_multiset().count(ws[i]) > known.to_multiset().count(ws[i]);
    let word = |i: int| ws[i];
    let all = Seq::new(n, |i: int| i);
    if n > 0 {
        let less = (n - 1) as nat;
        lemma_recovered_prefix(known, ws, less);
        assert(ws.take(n as int) =~= ws.take(n - 1).push(ws[n - 1]));
        lemma_recovered_push(known, ws.take(n - 1), ws[n - 1]);
        assert(all.drop_last() =~= Seq::new(less, |i: int| i));
        assert(all.last() == n - 1);
    }
    assert(recovered(known, ws.take(n as int)) =~= all.filter(kept).map_values(word));
}

proof fn lemma_filled_parts(
    base: Seq<Seq<char>>,
    t: Seq<Seq<char>>,
    list: Seq<Seq<char>>,
) -> (others: Multiset<Seq<char>>)
    requires
        is_filled(base, t, list),
    ensures
        t.to_multiset() == base.to_multiset().add(others),
        others.len() == t.len() - base.len(),
        forall|w: Seq<char>| #[trigger] others.count(w) > 0 ==> list.contains(w),
    decreases t.len(),
{
    broadcast use vstd::seq_lib::group_to_multiset_ensures;

    if t.len() == 0 {
        let others = Multiset::<Seq<char>>::empty();
        assert(t.to_multiset() =~= base.to_multiset().add(others));
        others
    } else {
        let shorter = t.drop_last();
        assert(t =~= shorter.push(t.last()));
        assert(t.to_multiset() =~= shorter.to_multiset().insert(t.last()));
        if base.len() > 0 && base.last() == t.last() && is_filled(
            base.drop_last(),
            shorter,
            list,
        ) {
            let less = base.drop_last();
            let others = lemma_filled_parts(less, shorter, list);
            assert(base =~= less.push(base.last()));
            assert(base.to_multiset() =~= less.to_multiset().insert(base.last()));
            assert(t.to_multiset() =~= base.to_multiset().add(others));
            others
        } else {
            let fewer = lemma_filled_parts(base, shorter, list);
            let others = fewer.insert(t.last());
            assert(t.to_multiset() =~= base.to_multiset().add(others));
            assert forall|w: Seq<char>| #[trigger] others.count(w) > 0 implies list.contains(w) by {
                if w != t.last() {
                    assert(fewer.count(w) > 0);
                }
            }
            others
        }
    }
}

/// The words that a phrase of word mode adds to the known ones are as many as are missing, and all
/// of them are in the list.
pub proof fn recovered_words_are_the_missing_ones(
    known: Seq<Seq<char>>,
    pinned: Seq<usize>,
    missing: nat,
    list: Seq<Seq<char>>,
    t: Seq<Seq<char>>,
)
    requires
        word_candidates(known, pinned, missing, list).contains(t),
    ensures
        recovered(known, t).len() == missing,
        forall|w: Seq<char>| #[trigger] recovered(known, t).contains(w) ==> list.contains(w),
{
    broadcast use vstd::seq_lib::group_to_multiset_ensures;

    word_candidates_are_all(known, pinned, missing, list, t);
    let o = choose|o: Seq<Seq<char>>| #[trigger]
        is_pinned_order(known, pinned, o) && is_filled(o, t, list);
    let others = lemma_filled_parts(o, t, list);
    recovered_is_the_difference(known, t);
    let r = recovered(known, t);
    assert(r.to_multiset() =~= others);
    assert(r.len() == r.to_multiset().len());
    assert forall|w: Seq<char>| #[trigger] r.contains(w) implies list.contains(w) by {
        assert(r.to_multiset().count(w) > 0);
        assert(others.count(w) > 0);
    }
}

////// Phrases as lines

/// A word without whitespace in it.
pub open spec fn is_plain_word(w: Seq<char>) -> bool {
    &&& w.len() > 0
    &&& forall|i: int| 0 <= i < w.len() ==> !is_whitespace(#[trigger] w[i])
}

proof fn lemma_pieces_append(a: Seq<char>, w: Seq<char>)
    requires
        forall|i: int| 0 <= i < w.len() ==> !is_whitespace(#[trigger] w[i]),
    ensures
        pieces(a, Separator::Whitespace).len() > 0,
        pieces(a + w, Separator::Whitespace) == pieces(a, Separator::Whitespace).drop_last().push(
            pieces(a, Separator::Whitespace).last() + w,
        ),
    decreases a.len() + w.len(),
{
    let p = pieces(a, Separator::Whitespace);
    if w.len() == 0 {
        if a.len() > 0 {
            lemma_pieces_append(a.drop_last(), Seq::empty());
        }
        assert(a + w =~= a);
        assert(p.last() + w =~= p.last());
        assert(p =~= p.drop_last().push(p.last()));
    } else {
        let less = w.drop_last();
        assert forall|i: int| 0 <= i < less.len() implies !is_whitespace(#[trigger] less[i]) by {
            assert(less[i] == w[i]);
        }
        lemma_pieces_append(a, less);
        assert((a + w).drop_last() =~= a + less);
        assert((a + w).last() == w[w.len() - 1]);
        assert((p.last() + less).push(w.last()) =~= p.last() + w);
        let q = pieces(a + less, Separator::Whitespace);
        assert(q.drop_last() =~= p.drop_last());
    }
}

proof fn lemma_pieces_joined(ws: Seq<Seq<char>>)
    requires
        ws.len() > 0,
        forall|i: int| 0 <= i < ws.len() ==> is_plain_word(#[trigger] ws[i]),
    ensures
        pieces(phrase_line(ws), Separator::Whitespace) == ws,
    decreases ws.len(),
{
    reveal_strlit(" ");
    let sep = Separator::Whitespace;
    if ws.len() == 1 {
        lemma_pieces_append(Seq::empty(), ws[0]);
        assert(Seq::<char>::empty() + ws[0] =~= ws[0]);
        assert(pieces(Seq::empty(), sep) == seq![Seq::<char>::empty()]);
        assert(pieces(ws[0], sep) =~= ws);
    } else {
        let less = ws.drop_last();
        assert forall|i: int| 0 <= i < less.len() implies is_plain_word(#[trigger] less[i]) by {
            assert(less[i] == ws[i]);
        }
        lemma_pieces_joined(less);
        let line = phrase_line(less);
        let spaced = line + " "@;
        assert(spaced.drop_last() =~= line);
        assert(spaced.last() == ' ');
        assert(pieces(spaced, sep) == less.push(Seq::empty()));
        assert(is_plain_word(ws[ws.len() - 1]));
        lemma_pieces_append(spaced, ws.last());
        assert(Seq::<char>::empty() + ws.last() =~= ws.last());
        assert(pieces(phrase_line(ws), sep) =~= ws);
    }
}

proof fn lemma_nonempty_all(ws: Seq<Seq<char>>)
    requires
        forall|i: int| 0 <= i < ws.len() ==> (#[trigger] ws[i]).len() > 0,
    ensures
        nonempty(ws) == ws,
    decreases ws.len(),
{
    if ws.len() > 0 {
        lemma_nonempty_all(ws.drop_last());
        assert(ws[ws.len() - 1].len() > 0);
        assert(ws =~= ws.drop_last().push(ws.last()));
    }
}

/// The words of a phrase can be read off its line again.
pub proof fn phrase_line_splits(ws: Seq<Seq<char>>)
    requires
        forall|i: int| 0 <= i < ws.len() ==> is_plain_word(#[trigger] ws[i]),
    ensures
        words(phrase_line(ws)) == ws,
{
    if ws.len() > 0 {
        lemma_pieces_joined(ws);
        lemma_nonempty_all(ws);
    } else {
        assert(words(phrase_line(ws)) =~= ws) by {
            let p = pieces(Seq::empty(), Separator::Whitespace);
            assert(p =~= seq![Seq::<char>::empty()]);
            assert(p.last().len() == 0);
            assert(p.drop_last() =~= Seq::<Seq<char>>::empty());
            assert(nonempty(p) == nonempty(p.drop_last()));
            assert(nonempty(p.drop_last()) == Seq::<Seq<char>>::empty());
        }
    }
}

/// The lines of several phrases are as many, each in its place, with a single space between words.
pub proof fn phrase_lines_keep_their_places(v: Seq<Seq<Seq<char>>>, i: int)
    requires
        0 <= i < v.len(),
    ensures
        phrase_lines(v).len() == v.len(),
        phrase_lines(v)[i] == joined(v[i], " "@),
        phrase_line(v[i]) == joined(v[i], " "@),
{
}

/// The line of a phrase holds as many words as the phrase has numbers, each the entry of the list at
/// its number, and looking these words up in a list without repetitions gives the numbers back.
pub proof fn phrase_numbers_are_given_back(list: Seq<Seq<char>>, codes: Seq<u16>)
    requires
        forall|w: int| 0 <= w < list.len() ==> (#[trigger] list[w]).len() > 0,
        forall|w: int, j: int|
            0 <= w < list.len() && 0 <= j < list[w].len() ==> !Separator::Whitespace.splits(
                #[trigger] list[w][j],
            ),
        forall|i: int| 0 <= i < codes.len() ==> (#[trigger] codes[i]) < list.len(),
    ensures
        words(phrase_line(words_at(list, codes))).len() == codes.len(),
        forall|i: int|
            0 <= i < codes.len() ==> #[trigger] words(phrase_line(words_at(list, codes)))[i]
                == list[codes[i] as int],
        list.no_duplicates() ==> word_numbers(words(phrase_line(words_at(list, codes))), list)
            == codes,
        list.no_duplicates() ==> first_unknown(words(phrase_line(words_at(list, codes))), list)
            is None,
{
    let ws = words_at(list, codes);
    assert forall|i: int| 0 <= i < ws.len() implies is_plain_word(#[trigger] ws[i]) by {
        let w = codes[i] as int;
        assert(ws[i] == list[w]);
        assert forall|j: int| 0 <= j < ws[i].len() implies !is_whitespace(#[trigger] ws[i][j]) by {
            assert(!Separator::Whitespace.splits(list[w][j]));
        }
    }
    phrase_line_splits(ws);
    if list.no_duplicates() {
        assert forall|i: int| 0 <= i < codes.len() implies #[trigger] word_numbers(ws, list)[i]
            == codes[i] by {
            lemma_position(list, ws[i]);
            assert(list.contains(list[codes[i] as int]));
        }
        assert(word_numbers(ws, list) =~= codes);
        lemma_all_known(ws, list);
    }
}

proof fn lemma_all_known(ws: Seq<Seq<char>>, list: Seq<Seq<char>>)
    requires
        forall|i: int| 0 <= i < ws.len() ==> list.contains(#[trigger] ws[i]),
    ensures
        first_unknown(ws, list) is None,
    decreases ws.len(),
{
    if ws.len() > 0 {
        let less = ws.drop_last();
        assert forall|i: int| 0 <= i < less.len() implies list.contains(#[trigger] less[i]) by {
            assert(less[i] == ws[i]);
        }
        lemma_all_known(less, list);
        assert(list.contains(ws[ws.len() - 1]));
        lemma_position(list, ws.last());
    }
}

} // verus!
