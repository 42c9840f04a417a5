//! All twelve-word phrases that a choice of tokenlist slots stands for, one at a time.
use vstd::prelude::*;

use crate::candidates::{
    alternative_candidates, expand_to_candidates, lemma_iota_ordering, missing_positions,
    words_known,
};
use crate::enumeration::{all_permutations, int_rows, ints, iota};
use crate::listing::{
    concat_range, fact, lemma_concat_ext, lemma_concat_first, lemma_permutations_len,
    lemma_tuples_contains, lemma_tuples_start, permutations, tuples, tuples_after, within, zeros,
};
use crate::odometer::{next_digits, step};
use crate::places::{count, free_at, has_number, is_number, last_value, lemma_count_bounds};
use crate::text::{rows, texts};
use crate::tokens::{alternative_view, SlotView, TokenView, TokenlistSlot};

verus! {

/// The values that are there, in order.
pub open spec fn somes<T>(s: Seq<Option<T>>) -> Seq<T>
    decreases s.len(),
{
    if s.len() == 0 {
        Seq::empty()
    } else {
        match s.last() {
            Some(x) => somes(s.drop_last()).push(x),
            None => somes(s.drop_last()),
        }
    }
}

/// The values of two sequences in a row come in a row.
pub proof fn lemma_somes_concat<T>(a: Seq<Option<T>>, b: Seq<Option<T>>)
    ensures
        somes(a + b) == somes(a) + somes(b),
    decreases b.len(),
{
    if b.len() == 0 {
        assert(a + b =~= a);
        assert(somes(a) + somes(b) =~= somes(a));
    } else {
        lemma_somes_concat(a, b.drop_last());
        assert((a + b).drop_last() =~= a + b.drop_last());
        assert((a + b).last() == b.last());
        assert(somes(a + b) =~= somes(a) + somes(b));
    }
}

/// The values are those that are there.
pub proof fn lemma_somes_contains<T>(s: Seq<Option<T>>, x: T)
    ensures
        somes(s).contains(x) <==> s.contains(Some(x)),
    decreases s.len(),
{
    if s.len() > 0 {
        let t = s.drop_last();
        lemma_somes_contains(t, x);
        if s.contains(Some(x)) {
            let i = s.index_of(Some(x));
            if i < t.len() {
                assert(t[i] == Some(x));
                let j = somes(t).index_of(x);
                assert(somes(s)[j] == x);
            } else {
                assert(somes(s)[somes(t).len() as int] == x);
            }
        }
        if somes(s).contains(x) {
            let j = somes(s).index_of(x);
            if j < somes(t).len() {
                assert(somes(t)[j] == x);
                let i = t.index_of(Some(x));
                assert(s[i] == Some(x));
            } else {
                assert(s[s.len() - 1] == Some(x));
            }
        }
    }
}

/// The fixed positions, each with the first word chosen for it.
pub open spec fn fixed_pairs(fixed: Seq<usize>, chosen: Seq<Seq<u16>>) -> Seq<(usize, u16)> {
    Seq::new(fixed.len(), |i: int| (fixed[i], chosen[i][0]))
}

/// The words chosen for the slots behind the first `from`, in one line.
pub open spec fn word_line(chosen: Seq<Seq<u16>>, from: int, to: int) -> Seq<u16> {
    concat_range(from, to, |p: int| chosen[p])
}

/// The phrase of twelve words that these words give: the first `fixed.len()` entries of `chosen`
/// are for the fixed positions and hold one word each, the others fill the remaining positions
/// from left to right and have to fill them exactly.
pub open spec fn assemble(fixed: Seq<usize>, chosen: Seq<Seq<u16>>) -> Option<Seq<u16>> {
    let line = word_line(chosen, fixed.len() as int, chosen.len() as int);
    if (exists|i: int| 0 <= i < fixed.len() && (#[trigger] chosen[i]).len() != 1) || line.len()
        != count(12, free_at(fixed)) {
        None
    } else {
        Some(
            Seq::new(
                12,
                |q: int|
                    if has_number(fixed, q) {
                        last_value(fixed_pairs(fixed, chosen), q)
                    } else {
                        line[count(q, free_at(fixed))]
                    },
            ),
        )
    }
}

/// Everything that is tried for one choice of slots.
pub struct PhraseSpace {
    /// The phrase positions (from 0) of the fixed slots.
    pub fixed: Seq<usize>,
    /// For each slot, the fixed ones first, the word sequences that may stand for it.
    pub options: Seq<Seq<Seq<u16>>>,
    /// The orders in which the other slots are placed.
    pub orders: Seq<Seq<int>>,
}

impl PhraseSpace {
    /// All slots in the order in which they are placed.
    pub open spec fn chain(self, order: Seq<int>) -> Seq<int> {
        iota(self.fixed.len()) + order.map_values(|f: int| self.fixed.len() + f)
    }

    /// How many options each slot of the chain has.
    pub open spec fn radix(self, order: Seq<int>) -> Seq<int> {
        self.chain(order).map_values(|si: int| self.options[si].len() as int)
    }

    /// The options with the numbers `d`, along the chain.
    pub open spec fn chosen(self, order: Seq<int>, d: Seq<int>) -> Seq<Seq<u16>> {
        Seq::new(self.chain(order).len(), |p: int| self.options[self.chain(order)[p]][d[p]])
    }

    /// The phrase that these options give in this order.
    pub open spec fn phrase(self, order: Seq<int>, d: Seq<int>) -> Option<Seq<u16>> {
        assemble(self.fixed, self.chosen(order, d))
    }

    /// The phrases that a list of option numbers gives in this order.
    pub open spec fn phrases_at(self, order: Seq<int>, choices: Seq<Seq<int>>) -> Seq<Seq<u16>> {
        somes(choices.map_values(|d: Seq<int>| self.phrase(order, d)))
    }

    /// The phrases of the `k`-th order, as a function of `k`: for every choice of options, in
    /// lexicographic order along the chain.
    pub open spec fn phrases_of_order(self) -> spec_fn(int) -> Seq<Seq<u16>> {
        |k: int| self.phrases_at(self.orders[k], tuples(self.radix(self.orders[k])))
    }

    /// The phrases of all orders from the `k`-th on.
    pub open spec fn phrases_from(self, k: int) -> Seq<Seq<u16>> {
        concat_range(k, self.orders.len() as int, self.phrases_of_order())
    }

    /// Everything that is tried.
    pub open spec fn phrases(self) -> Seq<Seq<u16>> {
        self.phrases_from(0)
    }

    /// Each slot has an option, and each order places every slot that is not fixed.
    pub open spec fn wf(self) -> bool {
        &&& self.fixed.len() <= self.options.len()
        &&& forall|i: int| 0 <= i < self.fixed.len() ==> #[trigger] self.fixed[i] < 12
        &&& forall|i: int| 0 <= i < self.options.len() ==> (#[trigger] self.options[i]).len() > 0
        &&& forall|k: int|
            0 <= k < self.orders.len() ==> (#[trigger] self.orders[k]).len() == self.options.len()
                - self.fixed.len()
        &&& forall|k: int, i: int|
            0 <= k < self.orders.len() && 0 <= i < self.orders[k].len() ==> 0
                <= #[trigger] self.orders[k][i] < self.options.len() - self.fixed.len()
    }
}

proof fn lemma_radix(s: PhraseSpace, k: int)
    requires
        s.wf(),
        0 <= k < s.orders.len(),
    ensures
        s.chain(s.orders[k]).len() == s.options.len(),
        s.radix(s.orders[k]).len() == s.options.len(),
        forall|p: int|
            0 <= p < s.options.len() ==> 0 <= #[trigger] s.chain(s.orders[k])[p] < s.options.len(),
        forall|p: int| 0 <= p < s.options.len() ==> #[trigger] s.radix(s.orders[k])[p] > 0,
{
    let order = s.orders[k];
    let c = s.chain(order);
    assert forall|p: int| 0 <= p < s.options.len() implies 0 <= #[trigger] c[p]
        < s.options.len() by {
        if p >= s.fixed.len() {
            assert(c[p] == s.fixed.len() + order[p - s.fixed.len()]);
            assert(0 <= s.orders[k][p - s.fixed.len()]);
        }
    }
    assert forall|p: int| 0 <= p < s.options.len() implies #[trigger] s.radix(order)[p] > 0 by {
        assert(0 <= c[p] < s.options.len());
        assert(s.options[c[p]].len() > 0);
    }
}

proof fn lemma_phrases_at_concat(
    s: PhraseSpace,
    order: Seq<int>,
    a: Seq<Seq<int>>,
    b: Seq<Seq<int>>,
)
    ensures
        s.phrases_at(order, a + b) == s.phrases_at(order, a) + s.phrases_at(order, b),
{
    let f = |d: Seq<int>| s.phrase(order, d);
    assert((a + b).map_values(f) =~= a.map_values(f) + b.map_values(f));
    lemma_somes_concat(a.map_values(f), b.map_values(f));
}

proof fn lemma_phrases_at_one(s: PhraseSpace, order: Seq<int>, d: Seq<int>)
    ensures
        s.phrases_at(order, seq![d]) == match s.phrase(order, d) {
            Some(p) => seq![p],
            None => Seq::empty(),
        },
{
    let f = |d: Seq<int>| s.phrase(order, d);
    let m = seq![d].map_values(f);
    assert(m =~= seq![s.phrase(order, d)]);
    reveal_with_fuel(somes, 2);
    assert(m.drop_last() =~= Seq::empty());
    assert(s.phrases_at(order, seq![d]) =~= match s.phrase(order, d) {
        Some(p) => seq![p],
        None => Seq::empty(),
    });
}

proof fn lemma_free_unique(fixed: Seq<usize>, a: int, b: int)
    requires
        0 <= a,
        0 <= b,
        free_at(fixed)(a),
        free_at(fixed)(b),
        count(a, free_at(fixed)) == count(b, free_at(fixed)),
    ensures
        a == b,
{
    if a < b {
        lemma_count_bounds(a + 1, b, free_at(fixed));
    } else if b < a {
        lemma_count_bounds(b + 1, a, free_at(fixed));
    }
}

/// Yields every phrase of a choice of slots, holding one at a time.
pub struct LazyPhraseIter {
    /// For each slot, the fixed ones first, its candidates; those of one alternative stand
    /// together, in the order of the alternatives.
    slot_cands: Vec<Vec<Vec<u16>>>,
    fixed_count: usize,
    /// The phrase position (from 0) of each fixed slot.
    fixed_positions: Vec<usize>,
    /// The phrase positions that no fixed slot claims, in increasing order.
    remaining_positions: Vec<usize>,
    /// The orders of the slots that are not fixed.
    slot_orders: Vec<Vec<usize>>,
    /// For each order, all slots in the order in which they are placed.
    chains: Vec<Vec<usize>>,
    order_pos: usize,
    /// How many candidates each slot has, along the current chain.
    radix: Vec<usize>,
    /// The number of the current candidate of each slot, along the current chain.
    cand_idx: Vec<usize>,
    first: bool,
    done: bool,
}

/// The candidates of every slot, as sequences.
pub open spec fn option_rows(v: Seq<Vec<Vec<u16>>>) -> Seq<Seq<Seq<u16>>> {
    v.map_values(|r: Vec<Vec<u16>>| rows(r@))
}

impl LazyPhraseIter {
    /// Everything that is tried.
    pub closed spec fn space(&self) -> PhraseSpace {
        PhraseSpace {
            fixed: self.fixed_positions@,
            options: option_rows(self.slot_cands@),
            orders: int_rows(self.slot_orders@),
        }
    }

    /// The state is consistent.
    pub closed spec fn wf(&self) -> bool {
        let s = self.space();
        let free = free_at(self.fixed_positions@);
        &&& s.wf()
        &&& self.fixed_count == self.fixed_positions@.len()
        &&& self.remaining_positions@.len() == count(12, free)
        &&& forall|j: int|
            0 <= j < self.remaining_positions@.len() ==> (#[trigger] self.remaining_positions@[j])
                < 12 && free(self.remaining_positions@[j] as int) && count(
                self.remaining_positions@[j] as int,
                free,
            ) == j
        &&& self.chains@.len() == self.slot_orders@.len()
        &&& forall|k: int|
            0 <= k < self.chains@.len() ==> ints((#[trigger] self.chains@[k])@) == s.chain(
                s.orders[k],
            )
        &&& self.cand_idx@.len() == self.slot_cands@.len()
        &&& self.order_pos <= self.slot_orders@.len()
        &&& self.order_pos < self.slot_orders@.len() ==> ints(self.radix@) == s.radix(
            s.orders[self.order_pos as int],
        ) && within(ints(self.radix@), ints(self.cand_idx@))
    }

    /// The number of the current order of the slots.
    pub closed spec fn order(&self) -> int {
        self.order_pos as int
    }

    /// The number of the current option of each slot, along the current chain.
    pub closed spec fn choice(&self) -> Seq<int> {
        ints(self.cand_idx@)
    }

    /// The phrase of the current choice is still to come.
    pub closed spec fn is_first(&self) -> bool {
        self.first
    }

    /// Nothing is left.
    pub closed spec fn is_done(&self) -> bool {
        self.done
    }

    /// How many options each slot of the current chain has.
    pub open spec fn option_counts(&self) -> Seq<int> {
        self.space().radix(self.space().orders[self.order()])
    }

    /// The choices of options that are still to come in the current order.
    pub open spec fn choices_left(&self) -> Seq<Seq<int>> {
        let after = tuples_after(self.option_counts(), self.choice());
        if self.is_first() {
            seq![self.choice()] + after
        } else {
            after
        }
    }

    /// The phrases that are still to come, first one first.
    pub open spec fn remaining(&self) -> Seq<Seq<u16>> {
        let s = self.space();
        if self.is_done() || self.order() >= s.orders.len() {
            Seq::empty()
        } else {
            s.phrases_at(s.orders[self.order()], self.choices_left()) + s.phrases_from(
                self.order() + 1,
            )
        }
    }

    /// The phrase that the current choice gives, if it gives one.
    pub fn build(&self) -> (r: Option<[u16; 12]>)
        requires
            self.wf(),
            self.order() < self.space().orders.len(),
        ensures
            match r {
                Some(p) => self.space().phrase(self.space().orders[self.order()], self.choice())
                    == Some(p@),
                None => self.space().phrase(self.space().orders[self.order()], self.choice())
                    is None,
            },
    {
        let ghost s = self.space();
        let ghost order = s.orders[self.order_pos as int];
        let ghost d = ints(self.cand_idx@);
        let ghost chosen = s.chosen(order, d);
        let ghost fixed = self.fixed_positions@;
        let ghost free = free_at(fixed);
        let ghost pairs = fixed_pairs(fixed, chosen);
        let ghost whole = word_line(chosen, fixed.len() as int, chosen.len() as int);
        proof {
            lemma_radix(s, self.order_pos as int);
        }
        let mut phrase: [u16; 12] = [0u16; 12];
        let chain = &self.chains[self.order_pos];
        assert(ints(chain@) == s.chain(order));
        let mut fi: usize = 0;
        while fi < self.fixed_count
            invariant
                self.wf(),
                s == self.space(),
                self.order_pos < self.slot_orders@.len(),
                order == s.orders[self.order_pos as int],
                d == ints(self.cand_idx@),
                within(s.radix(order), d),
                s.radix(order).len() == s.options.len(),
                chosen == s.chosen(order, d),
                chosen.len() == s.options.len(),
                fixed == self.fixed_positions@,
                pairs == fixed_pairs(fixed, chosen),
                ints(chain@) == s.chain(order),
                forall|p: int|
                    0 <= p < s.options.len() ==> 0 <= #[trigger] s.chain(order)[p] < s.options.len(),
                fi <= self.fixed_count,
                forall|i: int| 0 <= i < fi ==> (#[trigger] chosen[i]).len() == 1,
                forall|q: int|
                    0 <= q < 12 && has_number(fixed.take(fi as int), q) ==> #[trigger] phrase@[q]
                        == last_value(pairs.take(fi as int), q),
            decreases self.fixed_count - fi,
        {
            proof {
                assert(s.chain(order)[fi as int] == ints(chain@)[fi as int]);
                assert(0 <= d[fi as int] < s.radix(order)[fi as int]);
                assert(s.options[chain@[fi as int] as int] == rows(
                    self.slot_cands@[chain@[fi as int] as int]@,
                ));
            }
            let words = &self.slot_cands[chain[fi]][self.cand_idx[fi]];
            assert(words@ == chosen[fi as int]);
            if words.len() != 1 {
                assert(chosen[fi as int].len() != 1);
                return None;
            }
            let at = self.fixed_positions[fi];
            assert(fixed[fi as int] < 12);
            let ghost before = phrase@;
            phrase[at] = words[0];
            fi += 1;
            proof {
                let now = fixed.take(fi as int);
                let was = fixed.take(fi - 1);
                assert(pairs.take(fi as int).drop_last() =~= pairs.take(fi - 1));
                assert(pairs.take(fi as int).last() == (at, words@[0]));
                assert forall|q: int| 0 <= q < 12 && has_number(now, q) implies #[trigger] phrase@[q]
                    == last_value(pairs.take(fi as int), q) by {
                    if q != at {
                        let j = choose|j: int| 0 <= j < now.len() && #[trigger] now[j] == q;
                        assert(was[j] == q);
                        assert(before[q] == last_value(pairs.take(fi - 1), q));
                    }
                }
            }
        }
        proof {
            assert(fixed.take(fi as int) =~= fixed);
            assert(pairs.take(fi as int) =~= pairs);
        }
        let ghost f = |p: int| chosen[p];
        assert forall|q: int| 0 <= q implies #[trigger] count(q, free) >= 0 by {
            lemma_count_bounds(0, q, free);
        }
        let room = self.remaining_positions.len();
        let mut off: usize = 0;
        let mut p: usize = self.fixed_count;
        while p < chain.len()
            invariant
                self.wf(),
                s == self.space(),
                self.order_pos < self.slot_orders@.len(),
                order == s.orders[self.order_pos as int],
                d == ints(self.cand_idx@),
                within(s.radix(order), d),
                s.radix(order).len() == s.options.len(),
                chosen == s.chosen(order, d),
                chosen.len() == s.options.len(),
                chain.len() == s.options.len(),
                fixed == self.fixed_positions@,
                fixed.len() == self.fixed_count,
                free == free_at(fixed),
                pairs == fixed_pairs(fixed, chosen),
                f == (|p: int| chosen[p]),
                whole == word_line(chosen, fixed.len() as int, chosen.len() as int),
                ints(chain@) == s.chain(order),
                forall|p: int|
                    0 <= p < s.options.len() ==> 0 <= #[trigger] s.chain(order)[p] < s.options.len(),
                self.fixed_count <= p <= chain.len(),
                off == word_line(chosen, fixed.len() as int, p as int).len(),
                off <= room,
                room == self.remaining_positions.len(),
                forall|q: int| 0 <= q ==> #[trigger] count(q, free) >= 0,
                forall|q: int|
                    0 <= q < 12 && has_number(fixed, q) ==> #[trigger] phrase@[q] == last_value(
                        pairs,
                        q,
                    ),
                forall|q: int|
                    0 <= q < 12 && free(q) && count(q, free) < off ==> #[trigger] phrase@[q]
                        == word_line(chosen, fixed.len() as int, p as int)[count(q, free)],
            decreases chain.len() - p,
        {
            proof {
                assert(s.chain(order)[p as int] == ints(chain@)[p as int]);
                assert(0 <= d[p as int] < s.radix(order)[p as int]);
                assert(s.options[chain@[p as int] as int] == rows(
                    self.slot_cands@[chain@[p as int] as int]@,
                ));
            }
            let words = &self.slot_cands[chain[p]][self.cand_idx[p]];
            assert(words@ == chosen[p as int]);
            let ghost so_far = word_line(chosen, fixed.len() as int, p as int);
            let ghost next = word_line(chosen, fixed.len() as int, p + 1);
            assert(next == so_far + words@) by {
                assert(f(p as int) == words@);
            }
            if words.len() > room - off {
                proof {
                    lemma_word_line_grows(chosen, fixed.len() as int, p + 1, chosen.len() as int);
                }
                return None;
            }
            let mut k: usize = 0;
            while k < words.len()
                invariant
                    self.wf(),
                    fixed == self.fixed_positions@,
                    free == free_at(fixed),
                    k <= words.len(),
                    off + words.len() <= room,
                    room == self.remaining_positions@.len(),
                    forall|q: int| 0 <= q ==> #[trigger] count(q, free) >= 0,
                    so_far.len() == off,
                    next == so_far + words@,
                    forall|q: int|
                        0 <= q < 12 && has_number(fixed, q) ==> #[trigger] phrase@[q] == last_value(
                            pairs,
                            q,
                        ),
                    forall|q: int|
                        0 <= q < 12 && free(q) && count(q, free) < off + k ==> #[trigger] phrase@[q]
                            == next[count(q, free)],
                decreases words.len() - k,
            {
                let at = self.remaining_positions[off + k];
                let ghost before = phrase@;
                phrase[at] = words[k];
                k += 1;
                proof {
                    assert(free(at as int) && count(at as int, free) == off + k - 1);
                    assert forall|q: int|
                        0 <= q < 12 && free(q) && count(q, free) < off
                            + k implies #[trigger] phrase@[q] == next[count(q, free)] by {
                        if count(q, free) == off + k - 1 {
                            lemma_free_unique(fixed, q, at as int);
                        } else {
                            assert(before[q] == next[count(q, free)]);
                        }
                    }
                }
            }
            off += words.len();
            p += 1;
        }
        if off == room {
            proof {
                assert forall|q: int| 0 <= q < 12 && free(q) implies count(q, free) < off by {
                    lemma_count_bounds(q + 1, 12, free);
                }
                assert(s.phrase(order, d)->0 =~= phrase@);
            }
            Some(phrase)
        } else {
            None
        }
    }
}

impl LazyPhraseIter {
    /// Goes on to the next choice along the current chain, the last slot of the chain changing
    /// fastest; `false`, and back at the first choice, when the last one was reached.
    pub fn advance(&mut self) -> (r: bool)
        requires
            old(self).wf(),
            old(self).order() < old(self).space().orders.len(),
        ensures
            final(self).wf(),
            final(self).space() == old(self).space(),
            final(self).order() == old(self).order(),
            final(self).is_first() == old(self).is_first(),
            final(self).is_done() == old(self).is_done(),
            (final(self).choice(), r) == next_digits(old(self).option_counts(), old(self).choice()),
            if r {
                tuples_after(old(self).option_counts(), old(self).choice()) == seq![
                    final(self).choice(),
                ] + tuples_after(old(self).option_counts(), final(self).choice())
            } else {
                &&& tuples_after(old(self).option_counts(), old(self).choice()) == Seq::<
                    Seq<int>,
                >::empty()
                &&& forall|i: int|
                    0 <= i < final(self).choice().len() ==> #[trigger] final(self).choice()[i] == 0
            },
            final(self).choice().len() == old(self).choice().len(),
            if r {
                exists|p: int|
                    0 <= p < old(self).choice().len() && final(self).choice()[p] == #[trigger] old(
                        self,
                    ).choice()[p] + 1 && (forall|i: int|
                        0 <= i < p ==> #[trigger] final(self).choice()[i] == old(self).choice()[i])
                        && (forall|i: int|
                        p < i < old(self).choice().len() ==> #[trigger] final(self).choice()[i] == 0
                            && old(self).choice()[i] == old(self).option_counts()[i] - 1)
            } else {
                forall|i: int|
                    0 <= i < old(self).choice().len() ==> (#[trigger] old(self).choice()[i]) == old(
                        self,
                    ).option_counts()[i] - 1
            },
    {
        let ghost was = self.cand_idx@;
        let ghost counts = ints(self.radix@);
        assert(counts == old(self).option_counts());
        let more = step(&self.radix, &mut self.cand_idx);
        assert(self.space() == old(self).space());
        proof {
            let now = self.cand_idx@;
            let after = ints(now);
            let before = ints(was);
            if more {
                let p = choose|p: int|
                    0 <= p < was.len() && now[p] == #[trigger] was[p] + 1 && (forall|i: int|
                        0 <= i < p ==> #[trigger] now[i] == was[i]) && (forall|i: int|
                        p < i < was.len() ==> #[trigger] now[i] == 0 && was[i] == self.radix@[i]
                            - 1);
                assert(after[p] == before[p] + 1);
                assert forall|i: int| 0 <= i < p implies #[trigger] after[i] == before[i] by {
                    assert(now[i] == was[i]);
                }
                assert forall|i: int| p < i < before.len() implies #[trigger] after[i] == 0
                    && before[i] == counts[i] - 1 by {
                    assert(now[i] == 0);
                }
            } else {
                assert forall|i: int| 0 <= i < before.len() implies (#[trigger] before[i])
                    == counts[i] - 1 by {
                    assert(was[i] == self.radix@[i] - 1);
                }
            }
        }
        more
    }

    /// Goes on to the next order, whose candidates all start with their first one.
    fn next_order(&mut self)
        requires
            old(self).wf(),
            old(self).order_pos < old(self).slot_orders@.len(),
        ensures
            final(self).wf(),
            final(self).space() == old(self).space(),
            final(self).done == old(self).done,
            final(self).slot_orders == old(self).slot_orders,
            final(self).order_pos == old(self).order_pos + 1,
            !old(self).done ==> final(self).remaining() == old(self).space().phrases_from(
                old(self).order_pos + 1,
            ),
    {
        let ghost s = self.space();
        assert(self.order_pos < self.slot_orders.len());
        self.order_pos += 1;
        self.first = true;
        let slots = self.cand_idx.len();
        self.cand_idx = vec![0; slots];
        if self.order_pos < self.slot_orders.len() {
            proof {
                lemma_chain_entries(s, self.order_pos as int, self.chains@[self.order_pos as int]@);
            }
            self.radix = candidate_counts(&self.slot_cands, &self.chains[self.order_pos]);
        }
        proof {
            let z = zeros(s.options.len());
            assert(ints(self.cand_idx@) =~= z);
            assert(self.space() == s);
            if self.order_pos < self.slot_orders@.len() {
                lemma_start(s, self.order_pos as int);
            }
        }
    }

    /// The next phrase.
    pub fn next(&mut self) -> (r: Option<[u16; 12]>)
        requires
            old(self).wf(),
        ensures
            final(self).wf(),
            final(self).space() == old(self).space(),
            match r {
                Some(p) => {
                    &&& old(self).remaining().len() > 0
                    &&& p@ == old(self).remaining()[0]
                    &&& final(self).remaining() == old(self).remaining().drop_first()
                },
                None => {
                    &&& old(self).remaining().len() == 0
                    &&& final(self).remaining().len() == 0
                },
            },
    {
        let ghost todo = self.remaining();
        if self.done {
            return None;
        }
        let ghost s = self.space();
        loop
            invariant
                self.wf(),
                !self.done,
                self.space() == s,
                s == old(self).space(),
                todo == old(self).remaining(),
                self.remaining() == todo,
            decreases
                    self.slot_orders@.len() - self.order_pos,
                    if self.order_pos < self.slot_orders@.len() {
                        self.choices_left().len()
                    } else {
                        0
                    },
        {
            if self.order_pos >= self.slot_orders.len() {
                self.done = true;
                assert(self.space() == s);
                return None;
            }
            let ghost order = s.orders[self.order_pos as int];
            let ghost radix = s.radix(order);
            let ghost later = s.phrases_from(self.order_pos + 1);
            let ghost d = ints(self.cand_idx@);
            let ghost after = tuples_after(radix, d);
            if self.first {
                proof {
                    lemma_pop(s, order, d, after, later);
                }
                self.first = false;
                assert(self.space() == s);
                if let Some(p) = self.build() {
                    return Some(p);
                }
            }
            if self.advance() {
                let ghost now = ints(self.cand_idx@);
                assert(self.space() == s);
                proof {
                    lemma_pop(s, order, now, tuples_after(radix, now), later);
                }
                if let Some(p) = self.build() {
                    return Some(p);
                }
            } else {
                // This order is exhausted.
                assert(self.space() == s);
                proof {
                    lemma_phrases_at_none(s, order, later);
                }
                self.next_order();
            }
        }
    }
}

/// Taking the first choice off: its phrase, if it gives one, comes first.
proof fn lemma_pop(
    s: PhraseSpace,
    order: Seq<int>,
    d: Seq<int>,
    after: Seq<Seq<int>>,
    later: Seq<Seq<u16>>,
)
    ensures
        ({
            let whole = s.phrases_at(order, seq![d] + after) + later;
            let rest = s.phrases_at(order, after) + later;
            match s.phrase(order, d) {
                Some(p) => whole.len() > 0 && whole[0] == p && whole.drop_first() == rest,
                None => whole == rest,
            }
        }),
{
    lemma_phrases_at_concat(s, order, seq![d], after);
    lemma_phrases_at_one(s, order, d);
    let whole = s.phrases_at(order, seq![d] + after) + later;
    let rest = s.phrases_at(order, after) + later;
    if let Some(p) = s.phrase(order, d) {
        assert(whole =~= seq![p] + rest);
        assert(whole.drop_first() =~= rest);
    } else {
        assert(whole =~= rest);
    }
}

proof fn lemma_phrases_at_none(s: PhraseSpace, order: Seq<int>, later: Seq<Seq<u16>>)
    ensures
        s.phrases_at(order, Seq::<Seq<int>>::empty()) + later == later,
{
    assert(Seq::<Seq<int>>::empty().map_values(|d: Seq<int>| s.phrase(order, d)) =~= Seq::empty());
    assert(s.phrases_at(order, Seq::<Seq<int>>::empty()) + later =~= later);
}

/// The entries of an order's chain are numbers of slots.
proof fn lemma_chain_entries(s: PhraseSpace, k: int, chain: Seq<usize>)
    requires
        s.wf(),
        0 <= k < s.orders.len(),
        ints(chain) == s.chain(s.orders[k]),
    ensures
        forall|p: int| 0 <= p < chain.len() ==> #[trigger] chain[p] < s.options.len(),
{
    lemma_radix(s, k);
    assert(ints(chain).len() == chain.len());
    assert forall|p: int| 0 <= p < chain.len() implies #[trigger] chain[p] < s.options.len() by {
        assert(ints(chain)[p] == chain[p] as int);
        assert(0 <= s.chain(s.orders[k])[p] < s.options.len());
    }
}

/// The phrases from the `k`-th order on are those of its choices, counted from zero, and those of
/// the later orders.
proof fn lemma_start(s: PhraseSpace, k: int)
    requires
        s.wf(),
        0 <= k < s.orders.len(),
    ensures
        within(s.radix(s.orders[k]), zeros(s.options.len())),
        s.phrases_from(k) == s.phrases_at(
            s.orders[k],
            seq![zeros(s.options.len())] + tuples_after(
                s.radix(s.orders[k]),
                zeros(s.options.len()),
            ),
        ) + s.phrases_from(k + 1),
{
    let radix = s.radix(s.orders[k]);
    lemma_radix(s, k);
    lemma_tuples_start(radix);
    lemma_concat_first(k, s.orders.len() as int, s.phrases_of_order());
    assert forall|i: int| #![trigger zeros(s.options.len())[i]] 0 <= i < s.options.len() implies 0
        <= zeros(s.options.len())[i] < radix[i] by {
        assert(radix[i] > 0);
    }
}

proof fn lemma_word_line_grows(chosen: Seq<Seq<u16>>, from: int, mid: int, to: int)
    requires
        mid <= to,
    ensures
        word_line(chosen, from, mid).len() <= word_line(chosen, from, to).len(),
    decreases to - mid,
{
    if mid < to {
        lemma_word_line_grows(chosen, from, mid, to - 1);
    }
}


////// From slots to phrases

/// What a list of borrowed slots says.
pub open spec fn slot_ref_views(slots: Seq<&TokenlistSlot>) -> Seq<SlotView> {
    slots.map_values(|s: &TokenlistSlot| s@)
}

/// The candidates of a slot, alternative by alternative.
pub open spec fn slot_options(
    alts: Seq<Seq<TokenView>>,
    list: Seq<Seq<char>>,
    keep_word_order: bool,
) -> Seq<Seq<u16>> {
    concat_range(
        0,
        alts.len() as int,
        |a: int| alternative_candidates(alts[a], list, keep_word_order),
    )
}

/// The orders in which `n` slots without a fixed position are placed.
pub open spec fn slot_orders(n: nat, keep_token_order: bool) -> Seq<Seq<int>> {
    if keep_token_order || n <= 1 {
        seq![iota(n)]
    } else {
        permutations(iota(n))
    }
}

/// Everything that is tried for these slots.
pub open spec fn space_of(
    fixed: Seq<SlotView>,
    free: Seq<SlotView>,
    keep_token_order: bool,
    keep_word_order: bool,
    list: Seq<Seq<char>>,
) -> PhraseSpace {
    PhraseSpace {
        fixed: fixed.map_values(|s: SlotView| (s.position->0 - 1) as usize),
        options: (fixed + free).map_values(
            |s: SlotView| slot_options(s.alts, list, keep_word_order),
        ),
        orders: slot_orders(free.len(), keep_token_order),
    }
}

/// A slot that stands for at least one candidate: it has alternatives, they name words of the
/// list, and where a word is unknown the list has words to try.
pub open spec fn slot_usable(s: SlotView, list: Seq<Seq<char>>) -> bool {
    &&& s.alts.len() > 0
    &&& forall|a: int|
        0 <= a < s.alts.len() ==> words_known(#[trigger] s.alts[a], list) && (missing_positions(
            s.alts[a],
        ).len() > 0 ==> (list.len() as usize as u16) > 0)
}

/// A slot with a position inside the phrase.
pub open spec fn slot_fixed(s: SlotView) -> bool {
    s.position matches Some(p) && 1 <= p <= 12
}

proof fn lemma_alternative_nonempty(alt: Seq<TokenView>, list: Seq<Seq<char>>, keep: bool)
    requires
        missing_positions(alt).len() > 0 ==> (list.len() as usize as u16) > 0,
    ensures
        alternative_candidates(alt, list, keep).len() > 0,
{
    let movable = crate::candidates::movable_codes(alt, list);
    let pinned = crate::candidates::pinned_codes(alt, list);
    let miss = missing_positions(alt);
    let n = list.len() as usize as u16;
    let orders = crate::candidates::word_orders(movable, keep);
    lemma_permutations_len(movable);
    lemma_fact_positive(movable.len());
    let radix = Seq::new(miss.len(), |i: int| n as int);
    assert(within(radix, zeros(miss.len())));
    lemma_tuples_contains(radix, zeros(miss.len()));
    let f = crate::candidates::candidates_of_order(
        orders,
        pinned,
        miss,
        alt.len(),
        list.len() as usize,
    );
    lemma_concat_first(0, orders.len() as int, f);
    assert(f(0).len() == tuples(radix).len());
}

/// There is at least one order.
pub proof fn lemma_fact_positive(n: nat)
    ensures
        fact(n) > 0,
    decreases n,
{
    if n > 0 {
        lemma_fact_positive((n - 1) as nat);
        assert(n * fact((n - 1) as nat) > 0) by (nonlinear_arith)
            requires
                n > 0,
                fact((n - 1) as nat) > 0,
        ;
    }
}

/// The candidates of a slot.
fn slot_candidate_rows(slot: &TokenlistSlot, wordlist: &[String], keep_word_order: bool) -> (r: Vec<
    Vec<u16>,
>)
    requires
        slot_usable(slot@, texts(wordlist@)),
    ensures
        rows(r@) == slot_options(slot@.alts, texts(wordlist@), keep_word_order),
        r@.len() > 0,
{
    let ghost list = texts(wordlist@);
    let ghost alts = slot@.alts;
    let ghost f = |a: int| alternative_candidates(alts[a], list, keep_word_order);
    let mut out: Vec<Vec<u16>> = Vec::new();
    assert(rows(out@) =~= Seq::empty());
    let mut a: usize = 0;
    while a < slot.alts.len()
        invariant
            a <= slot.alts.len(),
            list == texts(wordlist@),
            alts == slot@.alts,
            slot_usable(slot@, list),
            f == (|a: int| alternative_candidates(alts[a], list, keep_word_order)),
            rows(out@) == concat_range(0, a as int, f),
        decreases slot.alts.len() - a,
    {
        assert(alts[a as int] == alternative_view(slot.alts@[a as int]@));
        let ghost before = rows(out@);
        let mut more = expand_to_candidates(&slot.alts[a], wordlist, keep_word_order);
        assert(f(a as int) == rows(more@));
        let ghost added = rows(more@);
        out.append(&mut more);
        assert(rows(out@) =~= before + added);
        a += 1;
    }
    proof {
        assert(alts.len() == slot.alts@.len());
        lemma_concat_first(0, alts.len() as int, f);
        assert(words_known(alts[0], list));
        lemma_alternative_nonempty(alts[0], list, keep_word_order);
        assert(rows(out@).len() == out@.len());
    }
    out
}

/// The orders in which the free slots are placed.
fn free_slot_orders(n: usize, keep_token_order: bool) -> (r: Vec<Vec<usize>>)
    ensures
        int_rows(r@) == slot_orders(n as nat, keep_token_order),
{
    if keep_token_order || n <= 1 {
        let mut one: Vec<usize> = Vec::new();
        let mut i: usize = 0;
        while i < n
            invariant
                i <= n,
                ints(one@) == iota(i as nat),
            decreases n - i,
        {
            let ghost before = ints(one@);
            one.push(i);
            assert(ints(one@) =~= before.push(i as int));
            i += 1;
            assert(ints(one@) =~= iota(i as nat));
        }
        let mut out: Vec<Vec<usize>> = Vec::new();
        out.push(one);
        assert(int_rows(out@) =~= seq![iota(n as nat)]);
        out
    } else {
        all_permutations(n)
    }
}

proof fn lemma_slot_orders(n: nat, keep_token_order: bool)
    ensures
        forall|k: int|
            0 <= k < slot_orders(n, keep_token_order).len() ==> (#[trigger] slot_orders(
                n,
                keep_token_order,
            )[k]).len() == n,
        forall|k: int, i: int|
            0 <= k < slot_orders(n, keep_token_order).len() && 0 <= i < slot_orders(
                n,
                keep_token_order,
            )[k].len() ==> 0 <= #[trigger] slot_orders(n, keep_token_order)[k][i] < n,
{
    let orders = slot_orders(n, keep_token_order);
    assert forall|k: int| 0 <= k < orders.len() implies (#[trigger] orders[k]).len() == n by {
        if !(keep_token_order || n <= 1) {
            assert(permutations(iota(n)).contains(orders[k]));
            lemma_iota_ordering(n, orders[k]);
        }
    }
    assert forall|k: int, i: int| 0 <= k < orders.len() && 0 <= i < orders[k].len() implies 0
        <= #[trigger] orders[k][i] < n by {
        if !(keep_token_order || n <= 1) {
            assert(permutations(iota(n)).contains(orders[k]));
            lemma_iota_ordering(n, orders[k]);
        }
    }
}

/// The chain of an order: the fixed slots, then the others.
fn chain_of(fixed_count: usize, order: &Vec<usize>) -> (r: Vec<usize>)
    requires
        forall|i: int| 0 <= i < order@.len() ==> fixed_count + #[trigger] order@[i] <= usize::MAX,
    ensures
        ints(r@) == iota(fixed_count as nat) + ints(order@).map_values(
            |f: int| fixed_count as nat + f,
        ),
{
    let mut chain: Vec<usize> = Vec::new();
    let mut i: usize = 0;
    while i < fixed_count
        invariant
            i <= fixed_count,
            ints(chain@) == iota(i as nat),
        decreases fixed_count - i,
    {
        let ghost before = ints(chain@);
        chain.push(i);
        assert(ints(chain@) =~= before.push(i as int));
        i += 1;
        assert(ints(chain@) =~= iota(i as nat));
    }
    let ghost shifted = ints(order@).map_values(|f: int| fixed_count as nat + f);
    let mut j: usize = 0;
    assert(ints(chain@) =~= iota(fixed_count as nat) + shifted.take(0));
    while j < order.len()
        invariant
            j <= order.len(),
            forall|i: int|
                0 <= i < order@.len() ==> fixed_count + #[trigger] order@[i] <= usize::MAX,
            shifted == ints(order@).map_values(|f: int| fixed_count as nat + f),
            ints(chain@) == iota(fixed_count as nat) + shifted.take(j as int),
        decreases order.len() - j,
    {
        let ghost before = ints(chain@);
        let si = fixed_count + order[j];
        chain.push(si);
        assert(ints(chain@) =~= before.push(si as int));
        j += 1;
        assert(shifted[j - 1] == si);
        assert(ints(chain@) =~= iota(fixed_count as nat) + shifted.take(j as int));
    }
    assert(shifted.take(j as int) =~= shifted);
    chain
}

/// How many candidates each slot of a chain has.
fn candidate_counts(slot_cands: &Vec<Vec<Vec<u16>>>, chain: &Vec<usize>) -> (r: Vec<usize>)
    requires
        forall|p: int| 0 <= p < chain@.len() ==> #[trigger] chain@[p] < slot_cands@.len(),
    ensures
        ints(r@) == ints(chain@).map_values(
            |si: int| option_rows(slot_cands@)[si].len() as int,
        ),
{
    let mut out: Vec<usize> = Vec::new();
    let mut p: usize = 0;
    while p < chain.len()
        invariant
            p <= chain.len(),
            forall|p: int| 0 <= p < chain@.len() ==> #[trigger] chain@[p] < slot_cands@.len(),
            out@.len() == p,
            forall|i: int|
                0 <= i < p ==> #[trigger] out@[i] == slot_cands@[chain@[i] as int]@.len(),
        decreases chain.len() - p,
    {
        assert(chain@[p as int] < slot_cands@.len());
        out.push(slot_cands[chain[p]].len());
        p += 1;
    }
    assert(ints(out@) =~= ints(chain@).map_values(
        |si: int| option_rows(slot_cands@)[si].len() as int,
    ));
    out
}

/// The phrase positions that no fixed slot claims.
fn open_positions(fixed_positions: &Vec<usize>) -> (r: Vec<usize>)
    ensures
        r@.len() == count(12, free_at(fixed_positions@)),
        forall|j: int|
            0 <= j < r@.len() ==> (#[trigger] r@[j]) < 12 && free_at(fixed_positions@)(r@[j] as int)
                && count(r@[j] as int, free_at(fixed_positions@)) == j,
{
    let ghost free = free_at(fixed_positions@);
    let mut out: Vec<usize> = Vec::new();
    let mut q: usize = 0;
    while q < 12
        invariant
            q <= 12,
            free == free_at(fixed_positions@),
            out@.len() == count(q as int, free),
            forall|j: int|
                0 <= j < out@.len() ==> (#[trigger] out@[j]) < q && free(out@[j] as int) && count(
                    out@[j] as int,
                    free,
                ) == j,
        decreases 12 - q,
    {
        if !is_number(fixed_positions, q) {
            assert(free(q as int));
            out.push(q);
        } else {
            assert(!free(q as int));
        }
        q += 1;
    }
    out
}

impl LazyPhraseIter {
    /// Starts the enumeration. Slots in `fixed` keep the position that they carry. Slots in `free`
    /// take the positions that are left, in every order unless `keep_token_order` is set.
    pub fn new(
        fixed: &[&TokenlistSlot],
        free: &[&TokenlistSlot],
        keep_token_order: bool,
        keep_word_order: bool,
        wordlist: &[String],
    ) -> (r: Self)
        requires
            fixed@.len() + free@.len() <= usize::MAX,
            forall|i: int| 0 <= i < fixed@.len() ==> slot_fixed((#[trigger] fixed@[i])@),
            forall|i: int|
                0 <= i < fixed@.len() ==> slot_usable((#[trigger] fixed@[i])@, texts(wordlist@)),
            forall|i: int|
                0 <= i < free@.len() ==> slot_usable((#[trigger] free@[i])@, texts(wordlist@)),
        ensures
            r.wf(),
            r.space() == space_of(
                slot_ref_views(fixed@),
                slot_ref_views(free@),
                keep_token_order,
                keep_word_order,
                texts(wordlist@),
            ),
            r.remaining() == r.space().phrases(),
            r.order() == 0,
            r.order() < r.space().orders.len(),
            r.choice() == zeros(r.space().options.len()),
            r.choice().len() == fixed@.len() + free@.len(),
            forall|i: int| 0 <= i < r.choice().len() ==> #[trigger] r.choice()[i] == 0,
            r.is_first(),
            r.is_done() <==> fixed@.len() + free@.len() == 0,
    {
        let ghost list = texts(wordlist@);
        let ghost space = space_of(
            slot_ref_views(fixed@),
            slot_ref_views(free@),
            keep_token_order,
            keep_word_order,
            list,
        );
        let fixed_count = fixed.len();
        let free_count = free.len();
        let mut slot_cands: Vec<Vec<Vec<u16>>> = Vec::new();
        let mut fixed_positions: Vec<usize> = Vec::new();
        let mut i: usize = 0;
        while i < fixed_count
            invariant
                i <= fixed_count,
                fixed_count == fixed@.len(),
                list == texts(wordlist@),
                forall|i: int| 0 <= i < fixed@.len() ==> slot_fixed((#[trigger] fixed@[i])@),
                forall|i: int| 0 <= i < fixed@.len() ==> slot_usable((#[trigger] fixed@[i])@, list),
                slot_cands@.len() == i,
                fixed_positions@.len() == i,
                forall|k: int|
                    0 <= k < i ==> rows((#[trigger] slot_cands@[k])@) == slot_options(
                        fixed@[k]@.alts,
                        list,
                        keep_word_order,
                    ) && slot_cands@[k]@.len() > 0,
                forall|k: int|
                    0 <= k < i ==> (#[trigger] fixed_positions@[k]) == fixed@[k].position->0 - 1
                        && fixed_positions@[k] < 12,
            decreases fixed_count - i,
        {
            let slot = fixed[i];
            assert(slot_fixed(slot@));
            slot_cands.push(slot_candidate_rows(slot, wordlist, keep_word_order));
            if let Some(at) = slot.position {
                fixed_positions.push(at - 1);
            }
            i += 1;
        }
        let mut j: usize = 0;
        while j < free_count
            invariant
                j <= free_count,
                free_count == free@.len(),
                fixed_count == fixed@.len(),
                fixed_count + free_count <= usize::MAX,
                list == texts(wordlist@),
                forall|i: int| 0 <= i < free@.len() ==> slot_usable((#[trigger] free@[i])@, list),
                slot_cands@.len() == fixed_count + j,
                forall|k: int|
                    0 <= k < fixed_count ==> rows((#[trigger] slot_cands@[k])@) == slot_options(
                        fixed@[k]@.alts,
                        list,
                        keep_word_order,
                    ) && slot_cands@[k]@.len() > 0,
                forall|k: int|
                    fixed_count <= k < fixed_count + j ==> rows((#[trigger] slot_cands@[k])@)
                        == slot_options(free@[k - fixed_count]@.alts, list, keep_word_order)
                        && slot_cands@[k]@.len() > 0,
            decreases free_count - j,
        {
            slot_cands.push(slot_candidate_rows(free[j], wordlist, keep_word_order));
            j += 1;
        }
        let remaining_positions = open_positions(&fixed_positions);
        let slot_orders = free_slot_orders(free_count, keep_token_order);
        proof {
            lemma_slot_orders(free_count as nat, keep_token_order);
            assert(fixed_positions@ =~= space.fixed);
            assert(option_rows(slot_cands@) =~= space.options);
            assert(space.options.len() == fixed_count + free_count);
            assert forall|k: int| 0 <= k < space.options.len() implies (#[trigger] space.options[k]).len()
                > 0 by {
                assert(space.options[k] == rows(slot_cands@[k]@));
            }
            assert(space.wf());
        }
        let mut chains: Vec<Vec<usize>> = Vec::new();
        let mut k: usize = 0;
        while k < slot_orders.len()
            invariant
                k <= slot_orders.len(),
                fixed_count == space.fixed.len(),
                fixed_count + free_count <= usize::MAX,
                space.options.len() == fixed_count + free_count,
                space.wf(),
                int_rows(slot_orders@) == space.orders,
                chains@.len() == k,
                forall|m: int|
                    0 <= m < k ==> ints((#[trigger] chains@[m])@) == space.chain(space.orders[m]),
            decreases slot_orders.len() - k,
        {
            proof {
                let order = slot_orders@[k as int];
                assert(space.orders[k as int] == ints(order@));
                assert forall|i: int| 0 <= i < order@.len() implies fixed_count
                    + #[trigger] order@[i] <= usize::MAX by {
                    assert(space.orders[k as int][i] == order@[i]);
                }
            }
            chains.push(chain_of(fixed_count, &slot_orders[k]));
            k += 1;
        }
        proof {
            lemma_slot_orders_nonempty(free_count as nat, keep_token_order);
            assert(int_rows(slot_orders@).len() == slot_orders@.len());
            lemma_chain_entries(space, 0, chains@[0]@);
        }
        let radix = candidate_counts(&slot_cands, &chains[0]);
        let total = fixed_count + free_count;
        let cand_idx: Vec<usize> = vec![0; total];
        let iter = LazyPhraseIter {
            slot_cands,
            fixed_count,
            fixed_positions,
            remaining_positions,
            slot_orders,
            chains,
            order_pos: 0,
            radix,
            cand_idx,
            first: true,
            done: total == 0,
        };
        proof {
            let z = zeros(space.options.len());
            assert(ints(iter.cand_idx@) =~= z);
            assert(iter.space() == space);
            lemma_start(space, 0);
            if total == 0 {
                lemma_no_slots(space);
            }
        }
        iter
    }
}

proof fn lemma_slot_orders_nonempty(n: nat, keep_token_order: bool)
    ensures
        slot_orders(n, keep_token_order).len() > 0,
{
    lemma_permutations_len(iota(n));
    lemma_fact_positive(n);
}

/// Without slots nothing is tried.
proof fn lemma_no_slots(s: PhraseSpace)
    requires
        s.wf(),
        s.options.len() == 0,
    ensures
        s.phrases() == Seq::<Seq<u16>>::empty(),
{
    assert forall|k: int| 0 <= k < s.orders.len() implies #[trigger] s.phrases_of_order()(k)
        == Seq::<Seq<u16>>::empty() by {
        let order = s.orders[k];
        lemma_radix(s, k);
        assert(tuples(s.radix(order)) =~= seq![Seq::<int>::empty()]);
        lemma_phrases_at_one(s, order, Seq::empty());
        assert(s.chosen(order, Seq::empty()).len() == 0);
        reveal_with_fuel(count, 13);
        assert(free_at(s.fixed)(0));
        lemma_count_bounds(1, 12, free_at(s.fixed));
    }
    lemma_concat_ext(
        0,
        s.orders.len() as int,
        s.phrases_of_order(),
        |k: int| Seq::<Seq<u16>>::empty(),
    );
    lemma_concat_empty::<Seq<u16>>(s.orders.len() as int);
}

proof fn lemma_concat_empty<T>(n: int)
    ensures
        concat_range(0, n, |k: int| Seq::<T>::empty()) == Seq::<T>::empty(),
    decreases n,
{
    if n > 0 {
        lemma_concat_empty::<T>(n - 1);
        assert(concat_range(0, n, |k: int| Seq::<T>::empty()) =~= Seq::<T>::empty());
    }
}

} // verus!
