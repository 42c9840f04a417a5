//! The candidate word sequences of one alternative.
use vstd::prelude::*;

use crate::enumeration::{all_permutations, int_rows, ints, iota};
use crate::laws::candidates::{candidates_spell_the_alternative, words_are_sorted_out};
use crate::listing::{
    concat_range, lemma_concat_ext, lemma_concat_map, lemma_permutations_map, permutations, prefixed,
    tuples,
};
use crate::places::{count, has_key, has_number, is_key, is_number, last_value, lemma_count_bounds};
use crate::text::{rows, texts};
use crate::tokens::{
    alternative_view, find_word, lemma_position, position, word_of, Alternative, Token, TokenView,
};

verus! {

/// A digit sequence as word numbers.
pub open spec fn codes(t: Seq<int>) -> Seq<u16> {
    t.map_values(|v: int| v as u16)
}

/// All sequences of `k` word numbers below `n`, in lexicographic order.
pub open spec fn code_tuples(n: u16, k: nat) -> Seq<Seq<u16>> {
    tuples(Seq::new(k, |i: int| n as int)).map_values(|t: Seq<int>| codes(t))
}

proof fn lemma_code_tuples(n: u16, k: nat)
    requires
        k > 0,
    ensures
        code_tuples(n, k) == concat_range(
            0,
            n as int,
            |v: int| prefixed(v as u16, code_tuples(n, (k - 1) as nat)),
        ),
{
    let radix = Seq::new(k, |i: int| n as int);
    let tail = Seq::new((k - 1) as nat, |i: int| n as int);
    assert(radix.drop_first() =~= tail);
    let rest = tuples(tail);
    let g = |t: Seq<int>| codes(t);
    let f = |v: int| prefixed(v, rest);
    let fm = |v: int| f(v).map_values(g);
    let h = |v: int| prefixed(v as u16, code_tuples(n, (k - 1) as nat));
    lemma_concat_map(0, n as int, f, g);
    assert forall|v: int| 0 <= v < n implies #[trigger] fm(v) == h(v) by {
        assert forall|j: int| 0 <= j < rest.len() implies #[trigger] fm(v)[j] == h(v)[j] by {
            assert(codes(seq![v] + rest[j]) =~= seq![v as u16] + codes(rest[j]));
        }
        assert(fm(v) =~= h(v));
    }
    lemma_concat_ext(0, n as int, fm, h);
}

/// All `n^k` sequences of `k` word numbers from `0..n`, with repetition, in lexicographic order.
pub fn missing_combos(n: u16, k: usize) -> (r: Vec<Vec<u16>>)
    ensures
        rows(r@) == code_tuples(n, k as nat),
    decreases k,
{
    if k == 0 {
        let mut one: Vec<Vec<u16>> = Vec::new();
        one.push(Vec::new());
        assert(Seq::new(0, |i: int| n as int) =~= Seq::<int>::empty());
        assert(codes(Seq::<int>::empty()) =~= Seq::<u16>::empty());
        assert(rows(one@) =~= code_tuples(n, 0));
        return one;
    }
    let sub = missing_combos(n, k - 1);
    let mut result: Vec<Vec<u16>> = Vec::new();
    let ghost subs = rows(sub@);
    let ghost f = |v: int| prefixed(v as u16, subs);
    proof {
        lemma_code_tuples(n, k as nat);
        assert(rows(result@) =~= Seq::empty());
    }
    let mut i: u16 = 0;
    while i < n
        invariant
            i <= n,
            subs == rows(sub@),
            f == (|v: int| prefixed(v as u16, subs)),
            rows(result@) == concat_range(0, i as int, f),
        decreases n - i,
    {
        let ghost before = rows(result@);
        let mut j: usize = 0;
        assert(before + prefixed(i, subs.take(0)) =~= before);
        while j < sub.len()
            invariant
                j <= sub.len(),
                subs == rows(sub@),
                rows(result@) == before + prefixed(i, subs.take(j as int)),
            decreases sub.len() - j,
        {
            let ghost old_rows = rows(result@);
            let mut s = sub[j].clone();
            assert(s@ =~= sub@[j as int]@);
            s.insert(0, i);
            assert(s@ =~= seq![i] + subs[j as int]);
            result.push(s);
            assert(rows(result@) =~= old_rows.push(s@));
            assert(prefixed(i, subs.take(j + 1)) =~= prefixed(i, subs.take(j as int)).push(s@));
            j += 1;
            assert(rows(result@) =~= before + prefixed(i, subs.take(j as int)));
        }
        assert(subs.take(j as int) =~= subs);
        assert(f(i as int) == prefixed(i, subs));
        i += 1;
    }
    result
}


/// The number under which a word stands in the list.
pub open spec fn code_of(list: Seq<Seq<char>>, w: Seq<char>) -> u16 {
    position(list, w)->0 as u16
}

/// The numbers of the words of an alternative that may be permuted, in order.
pub open spec fn movable_codes(alt: Seq<TokenView>, list: Seq<Seq<char>>) -> Seq<u16>
    decreases alt.len(),
{
    if alt.len() == 0 {
        Seq::empty()
    } else {
        let init = movable_codes(alt.drop_last(), list);
        match alt.last() {
            TokenView::Word(w) => init.push(code_of(list, w)),
            _ => init,
        }
    }
}

/// The pinned words of an alternative: where each stands, and its number.
pub open spec fn pinned_codes(alt: Seq<TokenView>, list: Seq<Seq<char>>) -> Seq<(usize, u16)>
    decreases alt.len(),
{
    if alt.len() == 0 {
        Seq::empty()
    } else {
        let init = pinned_codes(alt.drop_last(), list);
        match alt.last() {
            TokenView::PinnedWord(w) => init.push(((alt.len() - 1) as usize, code_of(list, w))),
            _ => init,
        }
    }
}

/// Where an alternative has an unknown word.
pub open spec fn missing_positions(alt: Seq<TokenView>) -> Seq<usize>
    decreases alt.len(),
{
    if alt.len() == 0 {
        Seq::empty()
    } else {
        let init = missing_positions(alt.drop_last());
        match alt.last() {
            TokenView::Missing => init.push((alt.len() - 1) as usize),
            _ => init,
        }
    }
}

/// Every word that the alternative names is in the list.
pub open spec fn words_known(alt: Seq<TokenView>, list: Seq<Seq<char>>) -> bool {
    forall|i: int|
        0 <= i < alt.len() ==> (#[trigger] word_of(alt[i]) matches Some(w) ==> list.contains(w))
}

/// Sorts the tokens of an alternative into words to permute, pinned words and unknown words.
pub fn expand_alternative(alt: &Alternative, wordlist: &[String]) -> (r: (
    Vec<u16>,
    Vec<(usize, u16)>,
    Vec<usize>,
))
    requires
        words_known(alternative_view(alt@), texts(wordlist@)),
    ensures
        r.0@ == movable_codes(alternative_view(alt@), texts(wordlist@)),
        r.1@ == pinned_codes(alternative_view(alt@), texts(wordlist@)),
        r.2@ == missing_positions(alternative_view(alt@)),
        wordlist@.len() <= 65536 ==> {
            let words = alternative_view(alt@).filter(|t: TokenView| t is Word);
            &&& r.0@.len() == words.len()
            &&& forall|k: int|
                0 <= k < r.0@.len() ==> (#[trigger] r.0@[k]) < wordlist@.len() && TokenView::Word(
                    wordlist@[r.0@[k] as int]@,
                ) == words[k]
            &&& forall|k: int|
                0 <= k < r.1@.len() ==> (#[trigger] r.1@[k]).0 < alt@.len() && r.1@[k].1
                    < wordlist@.len() && alt@[r.1@[k].0 as int]@ == TokenView::PinnedWord(
                    wordlist@[r.1@[k].1 as int]@,
                )
        },
        forall|i: int|
            0 <= i < alt@.len() ==> (#[trigger] alt@[i] is PinnedWord <==> exists|k: int|
                0 <= k < r.1@.len() && (#[trigger] r.1@[k]).0 == i),
        forall|k: int, l: int|
            0 <= k < l < r.1@.len() ==> (#[trigger] r.1@[k]).0 < (#[trigger] r.1@[l]).0,
        forall|i: int|
            0 <= i < alt@.len() ==> (#[trigger] alt@[i] is Missing <==> r.2@.contains(i as usize)),
        forall|k: int, l: int|
            0 <= k < l < r.2@.len() ==> #[trigger] r.2@[k] < #[trigger] r.2@[l],
        forall|k: int| 0 <= k < r.2@.len() ==> (#[trigger] r.2@[k]) < alt@.len(),
{
    let ghost view = alternative_view(alt@);
    let ghost list = texts(wordlist@);
    let mut movable: Vec<u16> = Vec::new();
    let mut pinned: Vec<(usize, u16)> = Vec::new();
    let mut miss: Vec<usize> = Vec::new();
    let mut i: usize = 0;
    while i < alt.len()
        invariant
            i <= alt.len(),
            view == alternative_view(alt@),
            list == texts(wordlist@),
            words_known(view, list),
            movable@ == movable_codes(view.take(i as int), list),
            pinned@ == pinned_codes(view.take(i as int), list),
            miss@ == missing_positions(view.take(i as int)),
        decreases alt.len() - i,
    {
        proof {
            assert(view.take(i + 1).drop_last() =~= view.take(i as int));
            assert(view.take(i + 1).last() == alt@[i as int]@);
            assert(word_of(view[i as int]) == word_of(alt@[i as int]@));
        }
        match &alt[i] {
            Token::Word(w) => {
                proof {
                    lemma_position(list, w@);
                }
                if let Some(p) = find_word(wordlist, w) {
                    movable.push(p as u16);
                }
            },
            Token::PinnedWord(w) => {
                proof {
                    lemma_position(list, w@);
                }
                if let Some(p) = find_word(wordlist, w) {
                    pinned.push((i, p as u16));
                }
            },
            Token::Missing => {
                miss.push(i);
            },
        }
        i += 1;
    }
    proof {
        assert(view.take(i as int) =~= view);
        assert(view.len() == alt.len());
        lemma_pinned_keys(view, list);
        lemma_missing_numbers(view);
        lemma_sorted_places(view, list);
        assert forall|i: int| 0 <= i < alt@.len() implies (#[trigger] alt@[i] is PinnedWord
            <==> exists|k: int| 0 <= k < pinned@.len() && (#[trigger] pinned@[k]).0 == i) by {
            assert(view[i] == alt@[i]@);
            assert(has_key(pinned@, i) <==> view[i] is PinnedWord);
            if exists|k: int| 0 <= k < pinned@.len() && (#[trigger] pinned@[k]).0 == i {
                let k = choose|k: int| 0 <= k < pinned@.len() && (#[trigger] pinned@[k]).0 == i;
                assert(pinned@[k].0 == i);
                assert(has_key(pinned@, i));
            }
        }
        assert forall|i: int| 0 <= i < alt@.len() implies (#[trigger] alt@[i] is Missing
            <==> miss@.contains(i as usize)) by {
            assert(view[i] == alt@[i]@);
            assert(has_number(miss@, i) <==> view[i] is Missing);
            if has_number(miss@, i) {
                let k = choose|k: int| 0 <= k < miss@.len() && #[trigger] miss@[k] == i;
                assert(miss@[k] == i as usize);
            }
            if miss@.contains(i as usize) {
                let k = miss@.index_of(i as usize);
                assert(miss@[k] == i);
            }
        }
        assert forall|k: int| 0 <= k < miss@.len() implies (#[trigger] miss@[k]) < alt@.len() by {
            assert(has_number(miss@, miss@[k] as int));
        }
        if wordlist@.len() <= 65536 {
            assert forall|i: int| 0 <= i < view.len() implies match #[trigger] view[i] {
                TokenView::Word(w) => list.contains(w),
                TokenView::PinnedWord(w) => list.contains(w),
                TokenView::Missing => true,
            } by {
                assert(word_of(view[i]) matches Some(w) ==> list.contains(w));
            }
            words_are_sorted_out(view, list);
        }
    }
    (movable, pinned, miss)
}

/// The places of the pinned and of the unknown words are listed in increasing order.
proof fn lemma_sorted_places(alt: Seq<TokenView>, list: Seq<Seq<char>>)
    requires
        alt.len() <= usize::MAX,
    ensures
        forall|k: int, l: int|
            0 <= k < l < pinned_codes(alt, list).len() ==> (#[trigger] pinned_codes(
                alt,
                list,
            )[k]).0 < (#[trigger] pinned_codes(alt, list)[l]).0,
        forall|k: int, l: int|
            0 <= k < l < missing_positions(alt).len() ==> #[trigger] missing_positions(alt)[k]
                < #[trigger] missing_positions(alt)[l],
        forall|k: int|
            0 <= k < pinned_codes(alt, list).len() ==> (#[trigger] pinned_codes(alt, list)[k]).0
                < alt.len(),
        forall|k: int|
            0 <= k < missing_positions(alt).len() ==> (#[trigger] missing_positions(alt)[k])
                < alt.len(),
    decreases alt.len(),
{
    if alt.len() > 0 {
        let init = alt.drop_last();
        lemma_sorted_places(init, list);
        let pinned = pinned_codes(alt, list);
        let miss = missing_positions(alt);
        let p0 = pinned_codes(init, list);
        let s0 = missing_positions(init);
        assert forall|k: int| 0 <= k < pinned.len() implies (#[trigger] pinned[k]).0 < alt.len() by {
            if k < p0.len() {
                assert(p0[k] == pinned[k]);
            }
        }
        assert forall|k: int| 0 <= k < miss.len() implies (#[trigger] miss[k]) < alt.len() by {
            if k < s0.len() {
                assert(s0[k] == miss[k]);
            }
        }
        assert forall|k: int, l: int| 0 <= k < l < pinned.len() implies (#[trigger] pinned[k]).0 < (
        #[trigger] pinned[l]).0 by {
            assert(p0[k] == pinned[k]);
            if l < p0.len() {
                assert(p0[l] == pinned[l]);
            }
        }
        assert forall|k: int, l: int| 0 <= k < l < miss.len() implies #[trigger] miss[k]
            < #[trigger] miss[l] by {
            assert(s0[k] == miss[k]);
            if l < s0.len() {
                assert(s0[l] == miss[l]);
            }
        }
    }
}


////// Filling the positions of an alternative

/// The positions that take a word to permute.
pub open spec fn movable_at(pinned: Seq<(usize, u16)>, miss: Seq<usize>) -> spec_fn(int) -> bool {
    |q: int| !has_key(pinned, q) && !has_number(miss, q)
}

/// The positions that take an unknown word.
pub open spec fn missing_at(pinned: Seq<(usize, u16)>, miss: Seq<usize>) -> spec_fn(int) -> bool {
    |q: int| !has_key(pinned, q) && has_number(miss, q)
}

/// One candidate: pinned words where they are pinned, the unknown words `mv` in order where a
/// word is missing, and the words `kp` in order everywhere else.
pub open spec fn filled(
    kp: Seq<u16>,
    pinned: Seq<(usize, u16)>,
    mv: Seq<u16>,
    miss: Seq<usize>,
    total: nat,
) -> Seq<u16> {
    Seq::new(
        total,
        |q: int|
            if has_key(pinned, q) {
                last_value(pinned, q)
            } else if has_number(miss, q) {
                mv[count(q, missing_at(pinned, miss))]
            } else {
                kp[count(q, movable_at(pinned, miss))]
            },
    )
}

/// The positions `0..total` can be filled: pinned words stand inside, and there are enough words.
pub open spec fn layout_fits(
    movable: nat,
    pinned: Seq<(usize, u16)>,
    miss: Seq<usize>,
    total: nat,
) -> bool {
    &&& forall|k: int| 0 <= k < pinned.len() ==> #[trigger] pinned[k].0 < total
    &&& count(total as int, missing_at(pinned, miss)) <= miss.len()
    &&& count(total as int, movable_at(pinned, miss)) <= movable
}

/// The orders in which the words to permute are tried.
pub open spec fn word_orders(movable: Seq<u16>, keep_word_order: bool) -> Seq<Seq<u16>> {
    if keep_word_order {
        seq![movable]
    } else {
        permutations(movable)
    }
}

/// All candidates of an alternative: for each order of the words to permute, for each choice of
/// the unknown words.
pub open spec fn candidate_list(
    movable: Seq<u16>,
    pinned: Seq<(usize, u16)>,
    miss: Seq<usize>,
    total: nat,
    keep_word_order: bool,
    wl_len: usize,
) -> Seq<Seq<u16>> {
    let orders = word_orders(movable, keep_word_order);
    concat_range(
        0,
        orders.len() as int,
        candidates_of_order(orders, pinned, miss, total, wl_len),
    )
}

/// The candidates with the words in the `i`-th of these orders, as a function of `i`.
pub open spec fn candidates_of_order(
    orders: Seq<Seq<u16>>,
    pinned: Seq<(usize, u16)>,
    miss: Seq<usize>,
    total: nat,
    wl_len: usize,
) -> spec_fn(int) -> Seq<Seq<u16>> {
    |i: int|
        code_tuples(wl_len as u16, miss.len()).map_values(
            |mv: Seq<u16>| filled(orders[i], pinned, mv, miss, total),
        )
}

fn fill(
    kp: &[u16],
    pinned: &[(usize, u16)],
    mv: &[u16],
    miss: &[usize],
    total_len: usize,
) -> (r: Vec<u16>)
    requires
        layout_fits(kp@.len(), pinned@, miss@, total_len as nat),
        mv@.len() == miss@.len(),
    ensures
        r@ == filled(kp@, pinned@, mv@, miss@, total_len as nat),
{
    let mut seq: Vec<u16> = vec![0u16; total_len];
    let mut k: usize = 0;
    while k < pinned.len()
        invariant
            k <= pinned.len(),
            seq.len() == total_len,
            forall|j: int| 0 <= j < pinned.len() ==> #[trigger] pinned@[j].0 < total_len,
            forall|q: int|
                0 <= q < total_len && has_key(pinned@.take(k as int), q) ==> #[trigger] seq@[q]
                    == last_value(pinned@.take(k as int), q),
        decreases pinned.len() - k,
    {
        let (at, w) = pinned[k];
        assert(pinned@[k as int].0 < total_len);
        let ghost before = seq@;
        seq[at] = w;
        k += 1;
        proof {
            let now = pinned@.take(k as int);
            let was = pinned@.take(k - 1);
            assert(now.drop_last() =~= was);
            assert(now.last() == pinned@[k - 1]);
            assert forall|q: int| 0 <= q < total_len && has_key(now, q) implies #[trigger] seq@[q]
                == last_value(now, q) by {
                if q != at {
                    let j = choose|j: int| 0 <= j < now.len() && #[trigger] now[j].0 == q;
                    assert(was[j].0 == q);
                    assert(before[q] == last_value(was, q));
                }
            }
        }
    }
    assert(pinned@.take(k as int) =~= pinned@);
    let ghost at_missing = missing_at(pinned@, miss@);
    let ghost at_movable = movable_at(pinned@, miss@);
    let ghost goal = filled(kp@, pinned@, mv@, miss@, total_len as nat);
    let mut ki: usize = 0;
    let mut mi: usize = 0;
    let mut q: usize = 0;
    while q < total_len
        invariant
            q <= total_len,
            seq.len() == total_len,
            layout_fits(kp@.len(), pinned@, miss@, total_len as nat),
            mv@.len() == miss@.len(),
            at_missing == missing_at(pinned@, miss@),
            at_movable == movable_at(pinned@, miss@),
            goal == filled(kp@, pinned@, mv@, miss@, total_len as nat),
            mi == count(q as int, at_missing),
            ki == count(q as int, at_movable),
            forall|j: int| 0 <= j < q ==> #[trigger] seq@[j] == goal[j],
            forall|j: int|
                q <= j < total_len && has_key(pinned@, j) ==> #[trigger] seq@[j] == last_value(
                    pinned@,
                    j,
                ),
        decreases total_len - q,
    {
        proof {
            lemma_count_bounds(q + 1, total_len as int, at_missing);
            lemma_count_bounds(q + 1, total_len as int, at_movable);
        }
        if !is_key(pinned, q) {
            if is_number(miss, q) {
                assert(at_missing(q as int) && !at_movable(q as int));
                seq[q] = mv[mi];
                mi += 1;
            } else {
                assert(!at_missing(q as int) && at_movable(q as int));
                seq[q] = kp[ki];
                ki += 1;
            }
        } else {
            assert(!at_missing(q as int) && !at_movable(q as int));
        }
        q += 1;
    }
    assert(seq@ =~= goal);
    seq
}

proof fn lemma_code_tuples_shape(n: u16, k: nat)
    ensures
        forall|j: int|
            0 <= j < code_tuples(n, k).len() ==> (#[trigger] code_tuples(n, k)[j]).len() == k,
{
    let radix = Seq::new(k, |i: int| n as int);
    assert forall|j: int| 0 <= j < code_tuples(n, k).len() implies (#[trigger] code_tuples(
        n,
        k,
    )[j]).len() == k by {
        let t = tuples(radix)[j];
        assert(tuples(radix).contains(t));
        crate::listing::lemma_tuples_contains(radix, t);
    }
}

/// The words to permute, in every order in which they are tried.
fn orders_of(movable: &[u16], keep_word_order: bool) -> (r: Vec<Vec<u16>>)
    ensures
        rows(r@) == word_orders(movable@, keep_word_order),
        forall|i: int| 0 <= i < r.len() ==> (#[trigger] r@[i])@.len() == movable@.len(),
{
    let mut out: Vec<Vec<u16>> = Vec::new();
    if keep_word_order {
        let mut one: Vec<u16> = Vec::new();
        one.extend_from_slice(movable);
        assert(one@ =~= movable@);
        out.push(one);
        assert(rows(out@) =~= seq![movable@]);
        return out;
    }
    let perms = all_permutations(movable.len());
    let ghost all = permutations(iota(movable@.len()));
    let ghost pick = |x: int| movable@[x];
    let ghost pick_all = |p: Seq<int>| p.map_values(pick);
    let mut i: usize = 0;
    assert(rows(out@) =~= all.map_values(pick_all).take(0));
    while i < perms.len()
        invariant
            i <= perms.len(),
            all == permutations(iota(movable@.len())),
            int_rows(perms@) == all,
            pick == (|x: int| movable@[x]),
            pick_all == (|p: Seq<int>| p.map_values(pick)),
            rows(out@) == all.map_values(pick_all).take(i as int),
            out.len() == i,
            forall|k: int| 0 <= k < out.len() ==> (#[trigger] out@[k])@.len() == movable@.len(),
        decreases perms.len() - i,
    {
        let perm = &perms[i];
        proof {
            assert(int_rows(perms@)[i as int] == ints(perm@));
            assert(all.contains(ints(perm@)));
            lemma_iota_ordering(movable@.len(), ints(perm@));
        }
        let mut row: Vec<u16> = Vec::new();
        let mut j: usize = 0;
        while j < perm.len()
            invariant
                j <= perm.len(),
                row.len() == j,
                forall|k: int| 0 <= k < perm.len() ==> 0 <= #[trigger] ints(perm@)[k] < movable@.len(),
                forall|k: int| 0 <= k < j ==> #[trigger] row@[k] == movable@[perm@[k] as int],
            decreases perm.len() - j,
        {
            assert(ints(perm@)[j as int] == perm@[j as int]);
            row.push(movable[perm[j]]);
            j += 1;
        }
        let ghost before = rows(out@);
        assert(row@ =~= pick_all(ints(perm@)));
        out.push(row);
        assert(rows(out@) =~= before.push(row@));
        i += 1;
        assert(rows(out@) =~= all.map_values(pick_all).take(i as int));
    }
    proof {
        assert(rows(out@) =~= all.map_values(pick_all));
        lemma_permutations_map(iota(movable@.len()), pick);
        assert(iota(movable@.len()).map_values(pick) =~= movable@);
    }
    out
}

/// An ordering of `0..n` has `n` entries, all below `n`.
pub proof fn lemma_iota_ordering(n: nat, p: Seq<int>)
    requires
        permutations(iota(n)).contains(p),
    ensures
        p.len() == n,
        forall|k: int| 0 <= k < p.len() ==> 0 <= #[trigger] p[k] < n,
{
    broadcast use vstd::seq_lib::group_to_multiset_ensures;

    crate::listing::lemma_permutations_sound(iota(n), p);
    assert forall|k: int| 0 <= k < p.len() implies 0 <= #[trigger] p[k] < n by {
        assert(p.contains(p[k]));
        assert(iota(n).to_multiset().count(p[k]) > 0);
        assert(iota(n).contains(p[k]));
    }
}

/// All candidates of an alternative, given as words to permute, pinned words and unknown words.
pub fn slot_candidates(
    movable: &[u16],
    pinned: &[(usize, u16)],
    miss: &[usize],
    total_len: usize,
    keep_word_order: bool,
    wl_len: usize,
) -> (r: Vec<Vec<u16>>)
    requires
        layout_fits(movable@.len(), pinned@, miss@, total_len as nat),
    ensures
        rows(r@) == candidate_list(
            movable@,
            pinned@,
            miss@,
            total_len as nat,
            keep_word_order,
            wl_len,
        ),
{
    let orders = orders_of(movable, keep_word_order);
    #[verifier::truncate]
    let n: u16 = wl_len as u16;
    let combos = missing_combos(n, miss.len());
    let ghost all_orders = word_orders(movable@, keep_word_order);
    let ghost all_combos = code_tuples(wl_len as u16, miss@.len());
    let ghost f = candidates_of_order(all_orders, pinned@, miss@, total_len as nat, wl_len);
    proof {
        lemma_code_tuples_shape(n, miss@.len());
    }
    let mut out: Vec<Vec<u16>> = Vec::new();
    assert(rows(out@) =~= Seq::empty());
    let mut i: usize = 0;
    while i < orders.len()
        invariant
            i <= orders.len(),
            rows(orders@) == all_orders,
            rows(combos@) == all_combos,
            forall|k: int| 0 <= k < orders.len() ==> (#[trigger] orders@[k])@.len() == movable@.len(),
            forall|k: int| 0 <= k < all_combos.len() ==> (#[trigger] all_combos[k]).len()
                == miss@.len(),
            layout_fits(movable@.len(), pinned@, miss@, total_len as nat),
            all_combos == code_tuples(wl_len as u16, miss@.len()),
            f == candidates_of_order(all_orders, pinned@, miss@, total_len as nat, wl_len),
            rows(out@) == concat_range(0, i as int, f),
        decreases orders.len() - i,
    {
        let ghost before = rows(out@);
        let ghost block = f(i as int);
        let mut j: usize = 0;
        assert(rows(out@) =~= before + block.take(0));
        while j < combos.len()
            invariant
                i < orders.len(),
                j <= combos.len(),
                rows(orders@) == all_orders,
                rows(combos@) == all_combos,
                forall|k: int|
                    0 <= k < orders.len() ==> (#[trigger] orders@[k])@.len() == movable@.len(),
                forall|k: int|
                    0 <= k < all_combos.len() ==> (#[trigger] all_combos[k]).len() == miss@.len(),
                layout_fits(movable@.len(), pinned@, miss@, total_len as nat),
                all_combos == code_tuples(wl_len as u16, miss@.len()),
                f == candidates_of_order(all_orders, pinned@, miss@, total_len as nat, wl_len),
                block == f(i as int),
                rows(out@) == before + block.take(j as int),
            decreases combos.len() - j,
        {
            proof {
                assert(all_combos[j as int] == combos@[j as int]@);
                assert(all_orders[i as int] == orders@[i as int]@);
            }
            let ghost so_far = rows(out@);
            let seq = fill(&orders[i], pinned, &combos[j], miss, total_len);
            assert(block[j as int] == seq@);
            out.push(seq);
            assert(rows(out@) =~= so_far.push(seq@));
            j += 1;
            assert(rows(out@) =~= before + block.take(j as int));
        }
        assert(block.take(j as int) =~= block);
        i += 1;
    }
    out
}

////// From the tokens of an alternative to its candidates

/// The candidates that an alternative stands for.
pub open spec fn alternative_candidates(
    alt: Seq<TokenView>,
    list: Seq<Seq<char>>,
    keep_word_order: bool,
) -> Seq<Seq<u16>> {
    candidate_list(
        movable_codes(alt, list),
        pinned_codes(alt, list),
        missing_positions(alt),
        alt.len(),
        keep_word_order,
        list.len() as usize,
    )
}

/// The pinned places of an alternative are those of its pinned words.
pub proof fn lemma_pinned_keys(alt: Seq<TokenView>, list: Seq<Seq<char>>)
    requires
        alt.len() <= usize::MAX,
    ensures
        forall|q: int| #![trigger has_key(pinned_codes(alt, list), q)]
            has_key(pinned_codes(alt, list), q) <==> 0 <= q < alt.len() && alt[q] is PinnedWord,
    decreases alt.len(),
{
    let now = pinned_codes(alt, list);
    if alt.len() > 0 {
        let init = alt.drop_last();
        let was = pinned_codes(init, list);
        lemma_pinned_keys(init, list);
        assert forall|q: int| #![trigger has_key(now, q)] has_key(now, q) <==> 0 <= q < alt.len()
            && alt[q] is PinnedWord by {
            assert(has_key(was, q) <==> 0 <= q < init.len() && init[q] is PinnedWord);
            if has_key(was, q) {
                let k = choose|k: int| 0 <= k < was.len() && #[trigger] was[k].0 == q;
                assert(now[k].0 == q);
            }
            if has_key(now, q) {
                let k = choose|k: int| 0 <= k < now.len() && #[trigger] now[k].0 == q;
                if k < was.len() {
                    assert(was[k].0 == q);
                }
            }
            if q == alt.len() - 1 && alt[q] is PinnedWord {
                assert(now[now.len() - 1].0 == q);
            }
        }
    }
}

/// The missing places of an alternative are those of its unknown words.
pub proof fn lemma_missing_numbers(alt: Seq<TokenView>)
    requires
        alt.len() <= usize::MAX,
    ensures
        forall|q: int| #![trigger has_number(missing_positions(alt), q)]
            has_number(missing_positions(alt), q) <==> 0 <= q < alt.len() && alt[q] is Missing,
    decreases alt.len(),
{
    let now = missing_positions(alt);
    if alt.len() > 0 {
        let init = alt.drop_last();
        let was = missing_positions(init);
        lemma_missing_numbers(init);
        assert forall|q: int| #![trigger has_number(now, q)] has_number(now, q) <==> 0 <= q
            < alt.len() && alt[q] is Missing by {
            assert(has_number(was, q) <==> 0 <= q < init.len() && init[q] is Missing);
            if has_number(was, q) {
                let k = choose|k: int| 0 <= k < was.len() && #[trigger] was[k] == q;
                assert(now[k] == q);
            }
            if has_number(now, q) {
                let k = choose|k: int| 0 <= k < now.len() && #[trigger] now[k] == q;
                if k < was.len() {
                    assert(was[k] == q);
                }
            }
            if q == alt.len() - 1 && alt[q] is Missing {
                assert(now[now.len() - 1] == q);
            }
        }
    }
}

/// Before each place stand as many words of a kind as were sorted out before it.
pub proof fn lemma_counts(alt: Seq<TokenView>, list: Seq<Seq<char>>, n: int)
    requires
        0 <= n <= alt.len() <= usize::MAX,
    ensures
        count(n, missing_at(pinned_codes(alt, list), missing_positions(alt))) == missing_positions(
            alt.take(n),
        ).len(),
        count(n, movable_at(pinned_codes(alt, list), missing_positions(alt))) == movable_codes(
            alt.take(n),
            list,
        ).len(),
    decreases n,
{
    if n > 0 {
        lemma_counts(alt, list, n - 1);
        lemma_pinned_keys(alt, list);
        lemma_missing_numbers(alt);
        assert(alt.take(n).drop_last() =~= alt.take(n - 1));
        assert(alt.take(n).last() == alt[n - 1]);
        assert(has_key(pinned_codes(alt, list), n - 1) <==> alt[n - 1] is PinnedWord);
        assert(has_number(missing_positions(alt), n - 1) <==> alt[n - 1] is Missing);
    }
}

/// What [`expand_alternative`] gives can be filled: each position has exactly one source.
pub proof fn lemma_expansion_fits(alt: Seq<TokenView>, list: Seq<Seq<char>>)
    requires
        alt.len() <= usize::MAX,
    ensures
        layout_fits(
            movable_codes(alt, list).len(),
            pinned_codes(alt, list),
            missing_positions(alt),
            alt.len(),
        ),
{
    let pinned = pinned_codes(alt, list);
    lemma_pinned_keys(alt, list);
    assert forall|k: int| 0 <= k < pinned.len() implies #[trigger] pinned[k].0 < alt.len() by {
        assert(has_key(pinned, pinned[k].0 as int));
    }
    lemma_counts(alt, list, alt.len() as int);
    assert(alt.take(alt.len() as int) =~= alt);
}

/// The candidates of an alternative.
pub fn expand_to_candidates(alt: &Alternative, wordlist: &[String], keep_word_order: bool) -> (r: Vec<
    Vec<u16>,
>)
    requires
        words_known(alternative_view(alt@), texts(wordlist@)),
    ensures
        rows(r@) == alternative_candidates(
            alternative_view(alt@),
            texts(wordlist@),
            keep_word_order,
        ),
        wordlist@.len() <= u16::MAX ==> forall|k: int|
            0 <= k < r@.len() ==> (#[trigger] r@[k])@.len() == alt@.len(),
        wordlist@.len() <= u16::MAX ==> forall|k: int, q: int|
            0 <= k < r@.len() && 0 <= q < alt@.len() ==> (#[trigger] r@[k]@[q]) < wordlist@.len()
                && match alt@[q] {
                Token::Word(w) => keep_word_order ==> wordlist@[r@[k]@[q] as int]@ == w@,
                Token::PinnedWord(w) => wordlist@[r@[k]@[q] as int]@ == w@,
                Token::Missing => true,
            },
{
    let (movable, pinned, miss) = expand_alternative(alt, wordlist);
    proof {
        assert(alternative_view(alt@).len() == alt.len());
        lemma_expansion_fits(alternative_view(alt@), texts(wordlist@));
    }
    let out = slot_candidates(&movable, &pinned, &miss, alt.len(), keep_word_order, wordlist.len());
    proof {
        let view = alternative_view(alt@);
        let list = texts(wordlist@);
        if wordlist@.len() <= u16::MAX {
            assert forall|i: int| 0 <= i < view.len() implies match #[trigger] view[i] {
                TokenView::Word(w) => list.contains(w),
                TokenView::PinnedWord(w) => list.contains(w),
                TokenView::Missing => true,
            } by {
                assert(word_of(view[i]) matches Some(w) ==> list.contains(w));
            }
            let all = alternative_candidates(view, list, keep_word_order);
            assert forall|k: int| 0 <= k < out@.len() implies (#[trigger] out@[k])@.len()
                == alt@.len() by {
                assert(all[k] == rows(out@)[k]);
                assert(all.contains(all[k]));
                candidates_spell_the_alternative(view, list, keep_word_order, all[k]);
            }
            assert forall|k: int, q: int| 0 <= k < out@.len() && 0 <= q < alt@.len() implies (
            #[trigger] out@[k]@[q]) < wordlist@.len() && match alt@[q] {
                Token::Word(w) => keep_word_order ==> wordlist@[out@[k]@[q] as int]@ == w@,
                Token::PinnedWord(w) => wordlist@[out@[k]@[q] as int]@ == w@,
                Token::Missing => true,
            } by {
                assert(all[k] == rows(out@)[k]);
                assert(all.contains(all[k]));
                candidates_spell_the_alternative(view, list, keep_word_order, all[k]);
                assert(view[q] == alt@[q]@);
                assert(all[k][q] < list.len());
                assert(list[all[k][q] as int] == wordlist@[out@[k]@[q] as int]@);
            }
        }
    }
    out
}

} // verus!
