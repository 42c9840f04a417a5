//! Word mode: all twelve-word phrases around ten, eleven or twelve known words.
use vstd::prelude::*;

use itertools::Permutations;
use std::ops::Range;

use crate::enumeration::{ints, iota, next_permutation, permutations_left, permutations_of};
use crate::listing::{
    concat_range, lemma_concat_ext, lemma_concat_first, lemma_concat_map, lemma_concat_shift,
    lemma_permutations_map, lemma_tuples_start, permutations, prefixed, tuples, tuples_after,
    within, zeros,
};
use crate::odometer::step;
use crate::places::{count, free_at, has_number, is_number, lemma_count_bounds};
use crate::text::{join, joined, texts};
use crate::tokens::{is_pinned, is_pinned_token, strip_pin, unpinned};

verus! {

////// Pinned words

/// The words without the double quotes of the pinned ones.
pub open spec fn unpinned_words(words: Seq<Seq<char>>) -> Seq<Seq<char>> {
    words.map_values(|w: Seq<char>| unpinned(w))
}

/// The indices of the pinned words, in order.
pub open spec fn pinned_indices(words: Seq<Seq<char>>) -> Seq<usize>
    decreases words.len(),
{
    if words.len() == 0 {
        Seq::empty()
    } else if is_pinned(words.last()) {
        pinned_indices(words.drop_last()).push((words.len() - 1) as usize)
    } else {
        pinned_indices(words.drop_last())
    }
}

/// Takes the double quotes off the pinned words and says which ones they are.
pub fn split_pinned_words(words: &[String]) -> (r: (Vec<String>, Vec<usize>))
    ensures
        texts(r.0@) == unpinned_words(texts(words@)),
        r.1@ == pinned_indices(texts(words@)),
        r.0@.len() == words@.len(),
        r.1@.len() <= r.0@.len(),
        forall|k: int| 0 <= k < r.1@.len() ==> #[trigger] r.1@[k] < r.0@.len(),
        forall|i: int|
            0 <= i < words@.len() ==> (r.1@.contains(i as usize) <==> (#[trigger] words@[i])@.len()
                >= 2 && words@[i]@[0] == '"' && words@[i]@[words@[i]@.len() - 1] == '"'),
        forall|k: int, l: int|
            0 <= k < l < r.1@.len() ==> #[trigger] r.1@[k] < #[trigger] r.1@[l],
        forall|i: int|
            0 <= i < words@.len() ==> if r.1@.contains(i as usize) {
                words@[i]@ == seq!['"'] + (#[trigger] r.0@[i])@ + seq!['"']
            } else {
                r.0@[i]@ == words@[i]@
            },
{
    let ghost all = texts(words@);
    let mut out: Vec<String> = Vec::new();
    let mut pinned: Vec<usize> = Vec::new();
    let mut i: usize = 0;
    while i < words.len()
        invariant
            i <= words.len(),
            all == texts(words@),
            out@.len() == i,
            forall|k: int| 0 <= k < i ==> (#[trigger] out@[k])@ == unpinned(all[k]),
            pinned@ == pinned_indices(all.take(i as int)),
            pinned@.len() <= i,
            forall|k: int| 0 <= k < pinned@.len() ==> #[trigger] pinned@[k] < i,
            forall|k: int, l: int|
                0 <= k < l < pinned@.len() ==> #[trigger] pinned@[k] < #[trigger] pinned@[l],
            forall|k: int|
                0 <= k < i ==> (pinned@.contains(k as usize) <==> (#[trigger] words@[k])@.len() >= 2
                    && words@[k]@[0] == '"' && words@[k]@[words@[k]@.len() - 1] == '"'),
            forall|k: int|
                0 <= k < i ==> if pinned@.contains(k as usize) {
                    words@[k]@ == seq!['"'] + (#[trigger] out@[k])@ + seq!['"']
                } else {
                    out@[k]@ == words@[k]@
                },
        decreases words.len() - i,
    {
        let w = &words[i];
        let ghost was = pinned@;
        proof {
            assert(all.take(i + 1).drop_last() =~= all.take(i as int));
            assert(all.take(i + 1).last() == w@);
        }
        if is_pinned_token(w) {
            out.push(strip_pin(w).to_owned());
            pinned.push(i);
            assert(pinned@[was.len() as int] == i);
        } else {
            out.push(w.clone());
        }
        proof {
            assert forall|k: int| 0 <= k < i implies #[trigger] pinned@.contains(k as usize)
                == was.contains(k as usize) by {
                if was.contains(k as usize) {
                    let j = was.index_of(k as usize);
                    assert(pinned@[j] == k as usize);
                }
                if pinned@.contains(k as usize) {
                    let j = pinned@.index_of(k as usize);
                    assert(was[j] == k as usize);
                }
            }
        }
        i += 1;
    }
    assert(all.take(i as int) =~= all);
    assert(texts(out@) =~= unpinned_words(all));
    (out, pinned)
}

/// The words that are not pinned, in order.
pub open spec fn movable_words(words: Seq<Seq<char>>, pinned: Seq<usize>) -> Seq<Seq<char>>
    decreases words.len(),
{
    if words.len() == 0 {
        Seq::empty()
    } else if has_number(pinned, words.len() - 1) {
        movable_words(words.drop_last(), pinned)
    } else {
        movable_words(words.drop_last(), pinned).push(words.last())
    }
}

/// The words with the ones that are not pinned in this order.
pub open spec fn placed(
    words: Seq<Seq<char>>,
    pinned: Seq<usize>,
    order: Seq<Seq<char>>,
) -> Seq<Seq<char>> {
    Seq::new(
        words.len(),
        |i: int|
            if has_number(pinned, i) {
                words[i]
            } else {
                order[count(i, free_at(pinned))]
            },
    )
}

/// All orders of the words that leave the pinned ones in place.
pub open spec fn pinned_orders(words: Seq<Seq<char>>, pinned: Seq<usize>) -> Seq<Seq<Seq<char>>> {
    permutations(movable_words(words, pinned)).map_values(
        |order: Seq<Seq<char>>| placed(words, pinned, order),
    )
}

/// As many words can be moved as places are free.
pub proof fn lemma_movable_len(words: Seq<Seq<char>>, pinned: Seq<usize>)
    ensures
        movable_words(words, pinned).len() == count(words.len() as int, free_at(pinned)),
    decreases words.len(),
{
    if words.len() > 0 {
        lemma_movable_len(words.drop_last(), pinned);
    }
}

/// Yields the orders of a list of words that leave the pinned ones in place.
pub struct PinnedPermutations {
    words: Vec<String>,
    pinned: Vec<usize>,
    movable: Vec<String>,
    perms: Permutations<Range<usize>>,
}

/// The words with these indices.
pub open spec fn picked(list: Seq<Seq<char>>, p: Seq<int>) -> Seq<Seq<char>> {
    p.map_values(|x: int| list[x])
}

impl PinnedPermutations {
    /// The state is consistent.
    pub closed spec fn wf(&self) -> bool {
        &&& texts(self.movable@) == movable_words(texts(self.words@), self.pinned@)
        &&& forall|k: int|
            0 <= k < permutations_left(self.perms).len() ==> (#[trigger] permutations_left(
                self.perms,
            )[k]).len() == self.movable@.len()
        &&& forall|k: int, i: int|
            0 <= k < permutations_left(self.perms).len() && 0 <= i < permutations_left(
                self.perms,
            )[k].len() ==> 0 <= #[trigger] permutations_left(self.perms)[k][i] < self.movable@.len()
    }

    /// The number of words.
    pub closed spec fn width(&self) -> nat {
        self.words@.len()
    }

    /// The orders that are still to come, first one first.
    pub closed spec fn remaining(&self) -> Seq<Seq<Seq<char>>> {
        permutations_left(self.perms).map_values(
            |p: Seq<int>|
                placed(texts(self.words@), self.pinned@, picked(texts(self.movable@), p)),
        )
    }

    /// The next order.
    pub fn next(&mut self) -> (r: Option<Vec<String>>)
        requires
            old(self).wf(),
        ensures
            final(self).wf(),
            final(self).width() == old(self).width(),
            match r {
                Some(v) => {
                    &&& old(self).remaining().len() > 0
                    &&& texts(v@) == old(self).remaining()[0]
                    &&& v@.len() == old(self).width()
                    &&& final(self).remaining() == old(self).remaining().drop_first()
                },
                None => {
                    &&& old(self).remaining().len() == 0
                    &&& final(self).remaining().len() == 0
                },
            },
    {
        let ghost left = permutations_left(self.perms);
        let perm = match next_permutation(&mut self.perms) {
            None => {
                return None;
            },
            Some(perm) => perm,
        };
        let ghost order = picked(texts(self.movable@), ints(perm@));
        let ghost all = texts(self.words@);
        let ghost goal = placed(all, self.pinned@, order);
        let ghost free = free_at(self.pinned@);
        proof {
            assert(ints(perm@) == left[0]);
            assert forall|i: int| 0 <= i < perm@.len() implies #[trigger] perm@[i]
                < self.movable@.len() by {
                assert(left[0][i] == ints(perm@)[i]);
            }
            lemma_movable_len(all, self.pinned@);
            assert(texts(self.movable@).len() == self.movable@.len());
        }
        let mut out: Vec<String> = Vec::new();
        let mut mi: usize = 0;
        let mut i: usize = 0;
        while i < self.words.len()
            invariant
                i <= self.words.len(),
                all == texts(self.words@),
                order == picked(texts(self.movable@), ints(perm@)),
                goal == placed(all, self.pinned@, order),
                free == free_at(self.pinned@),
                perm@.len() == self.movable@.len(),
                perm@.len() == count(all.len() as int, free),
                forall|i: int|
                    0 <= i < perm@.len() ==> #[trigger] perm@[i] < self.movable@.len(),
                mi == count(i as int, free),
                out@.len() == i,
                forall|k: int| 0 <= k < i ==> (#[trigger] out@[k])@ == goal[k],
            decreases self.words.len() - i,
        {
            proof {
                lemma_count_bounds(i + 1, all.len() as int, free);
            }
            if is_number(&self.pinned, i) {
                assert(!free(i as int));
                out.push(self.words[i].clone());
            } else {
                assert(free(i as int));
                assert(mi < perm.len());
                assert(perm@[mi as int] < self.movable@.len());
                out.push(self.movable[perm[mi]].clone());
                mi += 1;
            }
            i += 1;
        }
        proof {
            assert(texts(out@) =~= goal);
            let now = permutations_left(self.perms);
            assert(now == left.drop_first());
            assert forall|k: int| 0 <= k < now.len() implies (#[trigger] now[k]).len()
                == self.movable@.len() by {
                assert(now[k] == left[k + 1]);
            }
            assert forall|k: int, i: int| 0 <= k < now.len() && 0 <= i < now[k].len() implies 0
                <= #[trigger] now[k][i] < self.movable@.len() by {
                assert(now[k] == left[k + 1]);
                assert(0 <= left[k + 1][i]);
            }
            assert(self.remaining() =~= old(self).remaining().drop_first());
        }
        Some(out)
    }
}

/// All orders of `words` that leave the words at the indices `pinned` in place. Without pinned
/// indices these are all orders.
pub fn pinned_permutations(words: &[String], pinned: &[usize]) -> (r: PinnedPermutations)
    requires
        forall|k: int| 0 <= k < pinned@.len() ==> #[trigger] pinned@[k] < words@.len(),
    ensures
        r.wf(),
        r.width() == words@.len(),
        r.remaining() == pinned_orders(texts(words@), pinned@),
{
    let ghost all = texts(words@);
    let mut kept: Vec<String> = Vec::new();
    let mut movable: Vec<String> = Vec::new();
    let mut i: usize = 0;
    assert(all.take(0) =~= Seq::empty());
    assert(texts(movable@) =~= Seq::empty());
    while i < words.len()
        invariant
            i <= words.len(),
            all == texts(words@),
            kept@.len() == i,
            forall|k: int| 0 <= k < i ==> (#[trigger] kept@[k])@ == all[k],
            texts(movable@) == movable_words(all.take(i as int), pinned@),
        decreases words.len() - i,
    {
        let ghost before = texts(movable@);
        proof {
            assert(all.take(i + 1).drop_last() =~= all.take(i as int));
            assert(all.take(i + 1).last() == words@[i as int]@);
        }
        kept.push(words[i].clone());
        if !is_number(pinned, i) {
            movable.push(words[i].clone());
            assert(texts(movable@) =~= before.push(words@[i as int]@));
        }
        i += 1;
    }
    let mut places: Vec<usize> = Vec::new();
    places.extend_from_slice(pinned);
    let n = movable.len();
    let perms = permutations_of(n);
    let r = PinnedPermutations { words: kept, pinned: places, movable, perms };
    proof {
        assert(all.take(i as int) =~= all);
        assert(texts(r.words@) =~= all);
        assert(r.pinned@ =~= pinned@);
        let list = texts(r.movable@);
        let left = permutations_left(r.perms);
        assert(list.len() == n);
        assert forall|k: int| 0 <= k < left.len() implies (#[trigger] left[k]).len() == n by {
            assert(left.contains(left[k]));
            crate::candidates::lemma_iota_ordering(n as nat, left[k]);
        }
        assert forall|k: int, j: int| 0 <= k < left.len() && 0 <= j < left[k].len() implies 0
            <= #[trigger] left[k][j] < n by {
            assert(left.contains(left[k]));
            crate::candidates::lemma_iota_ordering(n as nat, left[k]);
        }
        let pick = |x: int| list[x];
        lemma_permutations_map(iota(n as nat), pick);
        assert(iota(n as nat).map_values(pick) =~= list);
        assert(permutations(list) =~= left.map_values(|p: Seq<int>| p.map_values(pick)));
        assert forall|k: int| 0 <= k < left.len() implies (#[trigger] r.remaining()[k])
            == pinned_orders(all, pinned@)[k] by {
            assert(permutations(list)[k] == left[k].map_values(pick));
            assert(left[k].map_values(pick) =~= picked(list, left[k]));
        }
        assert(r.remaining() =~= pinned_orders(all, pinned@));
    }
    r
}

////// Missing words

/// All sequences that come from `base` by putting `missing` words of the list in, one after the
/// other: for each gap, for each word.
pub open spec fn insertions(
    base: Seq<Seq<char>>,
    missing: nat,
    list: Seq<Seq<char>>,
) -> Seq<Seq<Seq<char>>>
    decreases missing, 2int,
{
    if missing == 0 {
        seq![base]
    } else {
        concat_range(0, base.len() as int + 1, insertions_by_gap(base, missing, list))
    }
}

/// The insertions whose first word goes into a gap, as a function of the gap.
pub open spec fn insertions_by_gap(
    base: Seq<Seq<char>>,
    missing: nat,
    list: Seq<Seq<char>>,
) -> spec_fn(int) -> Seq<Seq<Seq<char>>>
    decreases missing, 1int,
{
    |gap: int| concat_range(0, list.len() as int, insertions_by_word(base, gap, missing, list))
}

/// The insertions whose first word goes into this gap, as a function of the word's number.
pub open spec fn insertions_by_word(
    base: Seq<Seq<char>>,
    gap: int,
    missing: nat,
    list: Seq<Seq<char>>,
) -> spec_fn(int) -> Seq<Seq<Seq<char>>>
    decreases missing, 0int,
{
    |w: int|
        if missing == 0 {
            Seq::empty()
        } else {
            insertions(base.insert(gap, list[w]), (missing - 1) as nat, list)
        }
}

/// How many gaps and words there are for each word that is put in.
pub open spec fn insertion_radix(len: int, missing: nat, list_len: int) -> Seq<int>
    decreases missing,
{
    if missing == 0 {
        Seq::empty()
    } else {
        seq![len + 1, list_len] + insertion_radix(len + 1, (missing - 1) as nat, list_len)
    }
}

/// Puts words in, as pairs of a gap and a word number say.
pub open spec fn inserted(base: Seq<Seq<char>>, list: Seq<Seq<char>>, d: Seq<int>) -> Seq<Seq<char>>
    decreases d.len(),
{
    if d.len() < 2 {
        base
    } else {
        inserted(base.insert(d[0], list[d[1]]), list, d.skip(2))
    }
}

/// The insertions are counted through by gaps and word numbers.
pub proof fn lemma_insertions(base: Seq<Seq<char>>, missing: nat, list: Seq<Seq<char>>)
    ensures
        insertions(base, missing, list) == tuples(
            insertion_radix(base.len() as int, missing, list.len() as int),
        ).map_values(|d: Seq<int>| inserted(base, list, d)),
    decreases missing,
{
    let len = base.len() as int;
    let words = list.len() as int;
    let radix = insertion_radix(len, missing, words);
    let put = |d: Seq<int>| inserted(base, list, d);
    if missing == 0 {
        assert(tuples(radix).map_values(put) =~= seq![base]);
    } else {
        let less = (missing - 1) as nat;
        let rest = insertion_radix(len + 1, less, words);
        assert(radix.drop_first() =~= seq![words] + rest);
        assert(radix.drop_first().drop_first() =~= rest);
        let t2 = tuples(rest);
        let f2 = |w: int| prefixed(w, t2);
        let t1 = tuples(radix.drop_first());
        assert(t1 == concat_range(0, words, f2));
        let f1 = |gap: int| prefixed(gap, t1);
        let f1m = |gap: int| f1(gap).map_values(put);
        let g1 = insertions_by_gap(base, missing, list);
        lemma_concat_map(0, len + 1, f1, put);
        assert forall|gap: int| 0 <= gap < len + 1 implies #[trigger] f1m(gap) == g1(gap) by {
            let put_gap = |t: Seq<int>| put(seq![gap] + t);
            assert(f1m(gap) =~= t1.map_values(put_gap));
            let f2m = |w: int| f2(w).map_values(put_gap);
            let g2 = insertions_by_word(base, gap, missing, list);
            lemma_concat_map(0, words, f2, put_gap);
            assert forall|w: int| 0 <= w < words implies #[trigger] f2m(w) == g2(w) by {
                let next = base.insert(gap, list[w]);
                lemma_insertions(next, less, list);
                let put_next = |d: Seq<int>| inserted(next, list, d);
                assert(next.len() == len + 1);
                assert forall|k: int| 0 <= k < t2.len() implies #[trigger] f2m(w)[k] == g2(w)[k] by {
                    let d = seq![gap] + (seq![w] + t2[k]);
                    assert(f2(w)[k] == seq![w] + t2[k]);
                    assert(f2m(w)[k] == put(d));
                    assert(d.skip(2) =~= t2[k]);
                    assert(d[0] == gap && d[1] == w);
                }
                assert(f2m(w) =~= g2(w));
            }
            lemma_concat_ext(0, words, f2m, g2);
        }
        lemma_concat_ext(0, len + 1, f1m, g1);
    }
}

/// Yields the sequences that come from a base by putting words of a list in.
pub struct InsertMissing<'a> {
    base: Vec<String>,
    wordlist: &'a [String],
    /// For each word that is put in, the number of gaps and the number of words.
    radix: Vec<usize>,
    /// For each word that is put in, the gap and the word number.
    digits: Vec<usize>,
    first: bool,
    done: bool,
}

impl<'a> InsertMissing<'a> {
    closed spec fn radix_fits(&self) -> bool {
        exists|missing: nat|
            ints(self.radix@) == #[trigger] insertion_radix(
                self.base@.len() as int,
                missing,
                self.wordlist@.len() as int,
            ) && self.base@.len() + missing <= usize::MAX
    }

    /// The state is consistent.
    pub closed spec fn wf(&self) -> bool {
        &&& self.radix_fits()
        &&& !self.done ==> within(ints(self.radix@), ints(self.digits@))
    }

    closed spec fn choices_left(&self) -> Seq<Seq<int>> {
        let d = ints(self.digits@);
        if self.done {
            Seq::empty()
        } else if self.first {
            seq![d] + tuples_after(ints(self.radix@), d)
        } else {
            tuples_after(ints(self.radix@), d)
        }
    }

    /// The sequences that are still to come, first one first.
    pub closed spec fn remaining(&self) -> Seq<Seq<Seq<char>>> {
        self.choices_left().map_values(
            |d: Seq<int>| inserted(texts(self.base@), texts(self.wordlist@), d),
        )
    }

    fn build(&self) -> (r: Vec<String>)
        requires
            self.wf(),
            !self.done,
        ensures
            texts(r@) == inserted(texts(self.base@), texts(self.wordlist@), ints(self.digits@)),
    {
        let ghost list = texts(self.wordlist@);
        let ghost d = ints(self.digits@);
        let ghost radix = ints(self.radix@);
        let ghost goal = inserted(texts(self.base@), list, d);
        let ghost missing = choose|missing: nat|
            ints(self.radix@) == #[trigger] insertion_radix(
                self.base@.len() as int,
                missing,
                self.wordlist@.len() as int,
            ) && self.base@.len() + missing <= usize::MAX;
        let mut out: Vec<String> = Vec::new();
        let mut i: usize = 0;
        while i < self.base.len()
            invariant
                i <= self.base.len(),
                out@.len() == i,
                forall|k: int| 0 <= k < i ==> (#[trigger] out@[k])@ == self.base@[k]@,
            decreases self.base.len() - i,
        {
            out.push(self.base[i].clone());
            i += 1;
        }
        assert(texts(out@) =~= texts(self.base@));
        let ghost mut left = missing;
        let mut at: usize = 0;
        proof {
            assert(d.skip(0) =~= d);
            assert(radix.skip(0) =~= radix);
        }
        while at < self.digits.len()
            invariant
                at <= self.digits.len(),
                list == texts(self.wordlist@),
                d == ints(self.digits@),
                radix == ints(self.radix@),
                within(radix, d),
                radix.skip(at as int) == insertion_radix(
                    out@.len() as int,
                    left,
                    self.wordlist@.len() as int,
                ),
                out@.len() + left <= usize::MAX,
                goal == inserted(texts(out@), list, d.skip(at as int)),
            decreases self.digits.len() - at,
        {
            let ghost tail = radix.skip(at as int);
            let ghost digits = d.skip(at as int);
            let ghost before = texts(out@);
            proof {
                assert(tail.len() > 0);
                assert(left > 0);
                assert(tail[0] == out@.len() + 1 && tail[1] == self.wordlist@.len());
                assert(tail.len() >= 2);
                assert(0 <= d[at as int] < radix[at as int]);
                assert(0 <= d[at + 1] < radix[at + 1]);
                assert(tail[0] == radix[at as int] && tail[1] == radix[at + 1]);
                assert(self.digits@[at as int] == d[at as int]);
                assert(self.digits@[at + 1] == d[at + 1]);
            }
            let gap = self.digits[at];
            let word = self.wordlist[self.digits[at + 1]].clone();
            out.insert(gap, word);
            proof {
                assert(texts(out@) =~= before.insert(gap as int, word@));
                assert(digits.skip(2) =~= d.skip(at + 2));
                assert(tail.skip(2) =~= radix.skip(at + 2));
                assert(tail.skip(2) =~= insertion_radix(
                    out@.len() as int,
                    (left - 1) as nat,
                    self.wordlist@.len() as int,
                ));
                left = (left - 1) as nat;
            }
            at += 2;
        }
        assert(d.skip(at as int).len() == 0);
        out
    }

    /// The next sequence.
    pub fn next(&mut self) -> (r: Option<Vec<String>>)
        requires
            old(self).wf(),
        ensures
            final(self).wf(),
            match r {
                Some(v) => {
                    &&& old(self).remaining().len() > 0
                    &&& texts(v@) == old(self).remaining()[0]
                    &&& final(self).remaining() == old(self).remaining().drop_first()
                },
                None => {
                    &&& old(self).remaining().len() == 0
                    &&& final(self).remaining().len() == 0
                },
            },
    {
        if self.done {
            return None;
        }
        let ghost d = ints(self.digits@);
        let ghost put = |d: Seq<int>| inserted(texts(self.base@), texts(self.wordlist@), d);
        let ghost todo = self.remaining();
        let ghost after = tuples_after(ints(self.radix@), d);
        let ghost missing = choose|missing: nat|
            ints(self.radix@) == #[trigger] insertion_radix(
                self.base@.len() as int,
                missing,
                self.wordlist@.len() as int,
            ) && self.base@.len() + missing <= usize::MAX;
        if self.first {
            self.first = false;
            assert(self.remaining() =~= after.map_values(put));
            assert(todo =~= seq![put(d)] + after.map_values(put));
            assert(todo.drop_first() =~= self.remaining());
            return Some(self.build());
        }
        if step(&self.radix, &mut self.digits) {
            let ghost now = ints(self.digits@);
            let ghost then = tuples_after(ints(self.radix@), now);
            assert(self.remaining() =~= then.map_values(put));
            assert(todo =~= seq![put(now)] + then.map_values(put));
            assert(todo.drop_first() =~= self.remaining());
            Some(self.build())
        } else {
            self.done = true;
            assert(ints(self.radix@) == insertion_radix(
                self.base@.len() as int,
                missing,
                self.wordlist@.len() as int,
            ));
            assert(self.radix_fits());
            None
        }
    }
}

/// All sequences that come from `seq` by putting `remaining` words of the list in, one after the
/// other: every word into every gap.
pub fn insert_missing<'a>(seq: Vec<String>, remaining: usize, wordlist: &'a [String]) -> (r:
    InsertMissing<'a>)
    requires
        seq@.len() + remaining <= usize::MAX - 1,
    ensures
        r.wf(),
        r.remaining() == insertions(texts(seq@), remaining as nat, texts(wordlist@)),
{
    let ghost full = insertion_radix(
        seq@.len() as int,
        remaining as nat,
        wordlist@.len() as int,
    );
    let mut radix: Vec<usize> = Vec::new();
    let mut digits: Vec<usize> = Vec::new();
    let mut k: usize = 0;
    assert(ints(radix@) =~= Seq::empty());
    assert(full.skip(0) =~= full);
    while k < remaining
        invariant
            k <= remaining,
            seq@.len() + remaining <= usize::MAX - 1,
            radix@.len() == 2 * k,
            digits@.len() == 2 * k,
            forall|i: int| 0 <= i < digits@.len() ==> #[trigger] digits@[i] == 0,
            radix@.len() <= full.len(),
            ints(radix@) == full.take(radix@.len() as int),
            full.skip(radix@.len() as int) == insertion_radix(
                seq@.len() + k,
                (remaining - k) as nat,
                wordlist@.len() as int,
            ),
        decreases remaining - k,
    {
        let ghost before = ints(radix@);
        let ghost tail = full.skip(radix@.len() as int);
        radix.push(seq.len() + k + 1);
        radix.push(wordlist.len());
        digits.push(0);
        digits.push(0);
        proof {
            assert(tail[0] == seq@.len() + k + 1 && tail[1] == wordlist@.len());
            assert(tail.len() >= 2);
            assert(ints(radix@) =~= before.push(tail[0]).push(tail[1]));
            assert(ints(radix@) =~= full.take(radix@.len() as int));
            assert(full.skip(radix@.len() as int) =~= tail.skip(2));
            assert(tail.skip(2) =~= insertion_radix(
                seq@.len() + k + 1,
                (remaining - k - 1) as nat,
                wordlist@.len() as int,
            ));
        }
        k += 1;
    }
    let done = remaining > 0 && wordlist.len() == 0;
    let r = InsertMissing { base: seq, wordlist, radix, digits, first: true, done };
    proof {
        assert(full.skip(r.radix@.len() as int).len() == 0);
        assert(ints(r.radix@) =~= full);
        assert(ints(r.radix@) == insertion_radix(
            r.base@.len() as int,
            remaining as nat,
            r.wordlist@.len() as int,
        ));
        assert(r.radix_fits());
        lemma_insertions(texts(seq@), remaining as nat, texts(wordlist@));
        assert(texts(seq@).len() == seq@.len());
        assert(texts(wordlist@).len() == wordlist@.len());
        let put = |d: Seq<int>| inserted(texts(seq@), texts(wordlist@), d);
        if done {
            assert(full.drop_first()[0] == 0);
            assert(tuples(full.drop_first()) =~= Seq::empty());
            lemma_no_tuples(full);
            assert(r.remaining() =~= tuples(full).map_values(put));
        } else {
            lemma_radix_positive(seq@.len() as int, remaining as nat, wordlist@.len() as int);
            lemma_tuples_start(full);
            let z = zeros(full.len());
            assert(ints(r.digits@) =~= z);
            assert(within(full, z)) by {
                assert forall|i: int| #![trigger z[i]] 0 <= i < z.len() implies 0 <= z[i]
                    < full[i] by {
                    assert(full[i] > 0);
                }
            }
            assert(r.remaining() =~= tuples(full).map_values(put));
        }
    }
    r
}

/// No count is negative.
pub proof fn lemma_radix_sign(len: int, missing: nat, list_len: int)
    requires
        len >= 0,
        list_len >= 0,
    ensures
        forall|i: int|
            0 <= i < insertion_radix(len, missing, list_len).len() ==> #[trigger] insertion_radix(
                len,
                missing,
                list_len,
            )[i] >= 0,
    decreases missing,
{
    if missing > 0 {
        let rest = insertion_radix(len + 1, (missing - 1) as nat, list_len);
        lemma_radix_sign(len + 1, (missing - 1) as nat, list_len);
        let r = insertion_radix(len, missing, list_len);
        assert forall|i: int| 0 <= i < r.len() implies #[trigger] r[i] >= 0 by {
            if i >= 2 {
                assert(r[i] == rest[i - 2]);
            }
        }
    }
}

proof fn lemma_radix_positive(len: int, missing: nat, list_len: int)
    requires
        len >= 0,
        missing > 0 ==> list_len > 0,
    ensures
        forall|i: int|
            0 <= i < insertion_radix(len, missing, list_len).len() ==> #[trigger] insertion_radix(
                len,
                missing,
                list_len,
            )[i] > 0,
    decreases missing,
{
    if missing > 0 {
        let rest = insertion_radix(len + 1, (missing - 1) as nat, list_len);
        lemma_radix_positive(len + 1, (missing - 1) as nat, list_len);
        let r = insertion_radix(len, missing, list_len);
        assert forall|i: int| 0 <= i < r.len() implies #[trigger] r[i] > 0 by {
            if i >= 2 {
                assert(r[i] == rest[i - 2]);
            }
        }
    }
}

proof fn lemma_no_tuples(radix: Seq<int>)
    requires
        radix.len() > 0,
        tuples(radix.drop_first()).len() == 0,
    ensures
        tuples(radix) == Seq::<Seq<int>>::empty(),
{
    let rest = tuples(radix.drop_first());
    let f = |v: int| prefixed(v, rest);
    if radix[0] > 0 {
        crate::listing::lemma_concat_len(0, radix[0], f, 0);
        assert(radix[0] * 0 == 0);
    }
    assert(tuples(radix) =~= Seq::<Seq<int>>::empty());
}

////// All candidates

/// The phrases around one order of the known words, as a function of the order's number.
pub open spec fn insertions_of(
    orders: Seq<Seq<Seq<char>>>,
    missing: nat,
    list: Seq<Seq<char>>,
) -> spec_fn(int) -> Seq<Seq<Seq<char>>> {
    |i: int| insertions(orders[i], missing, list)
}

/// The phrases around all of these orders of the known words.
pub open spec fn insertions_of_all(
    orders: Seq<Seq<Seq<char>>>,
    missing: nat,
    list: Seq<Seq<char>>,
) -> Seq<Seq<Seq<char>>> {
    concat_range(0, orders.len() as int, insertions_of(orders, missing, list))
}

/// All word sequences of word mode: every order of the known words that leaves the pinned ones in
/// place, with words of the list put in for the missing ones.
pub open spec fn word_candidates(
    words: Seq<Seq<char>>,
    pinned: Seq<usize>,
    missing: nat,
    list: Seq<Seq<char>>,
) -> Seq<Seq<Seq<char>>> {
    insertions_of_all(pinned_orders(words, pinned), missing, list)
}

/// The words as one line, with a space between them.
pub open spec fn phrase_line(words: Seq<Seq<char>>) -> Seq<char> {
    joined(words, " "@)
}

/// The lines of these word sequences.
pub open spec fn phrase_lines(v: Seq<Seq<Seq<char>>>) -> Seq<Seq<char>> {
    v.map_values(|words: Seq<Seq<char>>| phrase_line(words))
}

proof fn lemma_insertions_pop(orders: Seq<Seq<Seq<char>>>, missing: nat, list: Seq<Seq<char>>)
    requires
        orders.len() > 0,
    ensures
        insertions_of_all(orders, missing, list) == insertions(orders[0], missing, list)
            + insertions_of_all(orders.drop_first(), missing, list),
{
    let n = orders.len() as int;
    let f = insertions_of(orders, missing, list);
    let g = insertions_of(orders.drop_first(), missing, list);
    lemma_concat_first(0, n, f);
    lemma_concat_shift(0, n - 1, f);
    lemma_concat_ext(0, n - 1, |i: int| f(i + 1), g);
}

/// Yields the phrases of word mode, each as one line.
pub struct WordCandidates<'a> {
    orders: PinnedPermutations,
    missing: usize,
    wordlist: &'a [String],
    /// The phrases around the current order of the known words.
    current: Option<InsertMissing<'a>>,
}

impl<'a> WordCandidates<'a> {
    /// The state is consistent.
    pub closed spec fn wf(&self) -> bool {
        &&& self.orders.wf()
        &&& self.orders.width() + self.missing <= usize::MAX - 1
        &&& self.current matches Some(c) ==> c.wf()
    }

    closed spec fn sequences_left(&self) -> Seq<Seq<Seq<char>>> {
        let later = insertions_of_all(
            self.orders.remaining(),
            self.missing as nat,
            texts(self.wordlist@),
        );
        match self.current {
            Some(c) => c.remaining() + later,
            None => later,
        }
    }

    /// The phrases that are still to come, first one first.
    pub closed spec fn remaining(&self) -> Seq<Seq<char>> {
        phrase_lines(self.sequences_left())
    }

    /// All phrases around these words: every order of them that leaves the ones at the indices
    /// `pinned` in place, with `missing` words of the list put in.
    pub fn new(words: &[String], pinned: &[usize], missing: usize, wordlist: &'a [String]) -> (r:
        Self)
        requires
            forall|k: int| 0 <= k < pinned@.len() ==> #[trigger] pinned@[k] < words@.len(),
            words@.len() + missing <= usize::MAX - 1,
        ensures
            r.wf(),
            r.remaining() == phrase_lines(
                word_candidates(texts(words@), pinned@, missing as nat, texts(wordlist@)),
            ),
    {
        WordCandidates { orders: pinned_permutations(words, pinned), missing, wordlist, current: None }
    }

    /// The next phrase.
    pub fn next(&mut self) -> (r: Option<String>)
        requires
            old(self).wf(),
        ensures
            final(self).wf(),
            match r {
                Some(line) => {
                    &&& old(self).remaining().len() > 0
                    &&& line@ == old(self).remaining()[0]
                    &&& final(self).remaining() == old(self).remaining().drop_first()
                },
                None => {
                    &&& old(self).remaining().len() == 0
                    &&& final(self).remaining().len() == 0
                },
            },
    {
        let ghost todo = self.sequences_left();
        let ghost list = texts(self.wordlist@);
        let ghost k = self.missing as nat;
        let mut current = self.current.take();
        loop
            invariant
                self.orders.wf(),
                self.orders.width() + self.missing <= usize::MAX - 1,
                self.current is None,
                current matches Some(c) ==> c.wf(),
                list == texts(self.wordlist@),
                k == self.missing,
                todo == (match current {
                    Some(c) => c.remaining(),
                    None => Seq::empty(),
                }) + insertions_of_all(self.orders.remaining(), k, list),
                phrase_lines(todo) == old(self).remaining(),
            decreases self.orders.remaining().len(),
        {
            match current {
                Some(mut inner) => {
                    let ghost before = inner.remaining();
                    if let Some(words) = inner.next() {
                        let line = join(&words, " ");
                        self.current = Some(inner);
                        proof {
                            assert(todo[0] == before[0]);
                            assert(self.sequences_left() =~= todo.drop_first());
                            assert(self.remaining() =~= old(self).remaining().drop_first());
                        }
                        return Some(line);
                    }
                },
                None => {},
            }
            let ghost ahead = self.orders.remaining();
            match self.orders.next() {
                None => {
                    assert(insertions_of_all(ahead, k, list) =~= Seq::empty());
                    assert(insertions_of_all(self.orders.remaining(), k, list) =~= Seq::empty());
                    return None;
                },
                Some(base) => {
                    proof {
                        lemma_insertions_pop(ahead, k, list);
                    }
                    let inner = insert_missing(base, self.missing, self.wordlist);
                    assert(todo =~= inner.remaining() + insertions_of_all(
                        self.orders.remaining(),
                        k,
                        list,
                    ));
                    current = Some(inner);
                },
            }
        }
    }
}

} // verus!
