//! Tokenlist mode: which slots are used together.
use vstd::prelude::*;

use itertools::Combinations;
use std::ops::Range;

use crate::enumeration::{combinations_left, combinations_of, ints, next_combination};
use crate::listing::{combinations, concat_range, lemma_combinations_contains, lemma_concat_first};
use crate::laws::slots::slots_are_parted;
use crate::phrases::slot_ref_views;
use crate::tokens::{slot_views, SlotView, TokenlistSlot};

verus! {

////// Fixed and free slots

/// The indices of the slots that have a position, or of those that have none.
pub open spec fn slots_with(slots: Seq<SlotView>, positioned: bool) -> Seq<usize>
    decreases slots.len(),
{
    if slots.len() == 0 {
        Seq::empty()
    } else if slots.last().position.is_some() == positioned {
        slots_with(slots.drop_last(), positioned).push((slots.len() - 1) as usize)
    } else {
        slots_with(slots.drop_last(), positioned)
    }
}

/// The indices of all slots.
pub open spec fn all_slots(n: nat) -> Seq<usize> {
    Seq::new(n, |i: int| i as usize)
}

/// The indices of the slots that stay where their position says.
pub open spec fn fixed_slots(slots: Seq<SlotView>, keep_token_order: bool) -> Seq<usize> {
    if keep_token_order {
        Seq::empty()
    } else {
        slots_with(slots, true)
    }
}

/// The indices of the slots that take the positions that are left.
pub open spec fn free_slots(slots: Seq<SlotView>, keep_token_order: bool) -> Seq<usize> {
    if keep_token_order {
        all_slots(slots.len())
    } else {
        slots_with(slots, false)
    }
}

/// Parts the slots into those that stay where their position says and those that take the
/// positions that are left. When the order of the lines is kept, the line of a slot is its
/// position, and all slots are of the second kind.
pub fn split_fixed_free(slots: &[TokenlistSlot], keep_token_order: bool) -> (r: (
    Vec<usize>,
    Vec<usize>,
))
    ensures
        r.0@ == fixed_slots(slot_views(slots@), keep_token_order),
        r.1@ == free_slots(slot_views(slots@), keep_token_order),
        forall|i: int|
            0 <= i < slots@.len() ==> (r.0@.contains(i as usize) <==> !keep_token_order && (
            #[trigger] slots@[i]).position is Some),
        forall|i: int|
            0 <= i < slots@.len() ==> (r.1@.contains(i as usize) <==> keep_token_order || (
            #[trigger] slots@[i]).position is None),
        forall|k: int| 0 <= k < r.0@.len() ==> (#[trigger] r.0@[k]) < slots@.len(),
        forall|k: int| 0 <= k < r.1@.len() ==> (#[trigger] r.1@[k]) < slots@.len(),
        forall|k: int, l: int|
            0 <= k < l < r.0@.len() ==> #[trigger] r.0@[k] < #[trigger] r.0@[l],
        forall|k: int, l: int|
            0 <= k < l < r.1@.len() ==> #[trigger] r.1@[k] < #[trigger] r.1@[l],
{
    let ghost views = slot_views(slots@);
    let mut fixed: Vec<usize> = Vec::new();
    let mut free: Vec<usize> = Vec::new();
    let mut i: usize = 0;
    assert(views.take(0) =~= Seq::empty());
    assert(all_slots(0) =~= Seq::empty());
    while i < slots.len()
        invariant
            i <= slots.len(),
            views == slot_views(slots@),
            fixed@ == fixed_slots(views.take(i as int), keep_token_order),
            free@ == free_slots(views.take(i as int), keep_token_order),
        decreases slots.len() - i,
    {
        proof {
            assert(views.take(i + 1).drop_last() =~= views.take(i as int));
            assert(views.take(i + 1).last() == slots@[i as int]@);
            assert(all_slots((i + 1) as nat) =~= all_slots(i as nat).push(i));
        }
        if !keep_token_order && slots[i].position.is_some() {
            fixed.push(i);
        } else {
            free.push(i);
        }
        i += 1;
    }
    proof {
        assert(views.take(i as int) =~= views);
        assert(views.len() == slots.len());
        assert forall|i: int| 0 <= i < slots@.len() implies (fixed@.contains(i as usize)
            <==> !keep_token_order && (#[trigger] slots@[i]).position is Some) && (free@.contains(
            i as usize,
        ) <==> keep_token_order || slots@[i].position is None) by {
            slots_are_parted(views, keep_token_order, i);
            assert(views[i] == slots@[i]@);
        }
        if views.len() > 0 {
            slots_are_parted(views, keep_token_order, 0);
        }
    }
    (fixed, free)
}

////// How many slots

/// How many slots are used at least, how many at most, and how many of those without a fixed
/// position that leaves.
#[derive(Debug, Clone, Copy, PartialEq, Eq, Structural)]
pub struct SubsetBounds {
    pub min_token: usize,
    pub max_token: usize,
    pub min_free: usize,
    pub max_free: usize,
}

/// The smaller of two numbers.
pub open spec fn smaller(a: int, b: int) -> int {
    if a <= b {
        a
    } else {
        b
    }
}

/// The difference of two numbers, or zero where it would be negative.
pub open spec fn excess(a: int, b: int) -> int {
    if a <= b {
        0
    } else {
        a - b
    }
}

/// How many slots are used at least: all of them where nothing else is asked for.
pub open spec fn least_slots(slots: int, min_token: Option<usize>) -> int {
    match min_token {
        Some(m) => smaller(m as int, slots),
        None => slots,
    }
}

/// How many slots without a fixed position are used at least.
pub open spec fn least_free(slots: int, fixed: int, min_token: Option<usize>) -> int {
    excess(least_slots(slots, min_token), fixed)
}

/// How many slots without a fixed position are used at most.
pub open spec fn most_free(slots: int, fixed: int, free: int) -> int {
    smaller(excess(slots, fixed), free)
}

/// Works out how many slots are used. Without a minimum all slots are, and slots with a fixed
/// position always are.
pub fn subset_bounds(slots: usize, fixed: usize, free: usize, min_token: Option<usize>) -> (r:
    SubsetBounds)
    ensures
        r.min_token == least_slots(slots as int, min_token),
        r.max_token == slots,
        r.min_free == least_free(slots as int, fixed as int, min_token),
        r.max_free == most_free(slots as int, fixed as int, free as int),
        r.min_token == match min_token {
            Some(m) => if m <= slots {
                m
            } else {
                slots
            },
            None => slots,
        },
        r.min_free == if r.min_token >= fixed {
            r.min_token - fixed
        } else {
            0
        },
        r.max_free <= free,
        r.max_free + fixed <= slots || r.max_free == 0,
        r.max_free == free || r.max_free + fixed >= slots,
{
    let min = match min_token {
        Some(m) => if m <= slots {
            m
        } else {
            slots
        },
        None => slots,
    };
    let min_free = if min <= fixed {
        0
    } else {
        min - fixed
    };
    let rest = if slots <= fixed {
        0
    } else {
        slots - fixed
    };
    let max_free = if rest <= free {
        rest
    } else {
        free
    };
    SubsetBounds { min_token: min, max_token: slots, min_free, max_free }
}

////// Selections of slots

/// The entries of a list at these places.
pub open spec fn entries(list: Seq<usize>, at: Seq<int>) -> Seq<usize> {
    at.map_values(|i: int| list[i])
}

/// The entries of a list at each of these selections of places.
pub open spec fn entries_at(list: Seq<usize>, selections: Seq<Seq<int>>) -> Seq<Seq<usize>> {
    selections.map_values(|c: Seq<int>| entries(list, c))
}

/// The selections of a number of free slots, as a function of the number.
pub open spec fn selections_of(free: Seq<usize>) -> spec_fn(int) -> Seq<Seq<usize>> {
    |k: int| entries_at(free, combinations(0, free.len() as int, k))
}

/// The selections of at least `lo` and at most `hi` free slots: smaller ones first, and those of
/// one size in lexicographic order.
pub open spec fn slot_selections(free: Seq<usize>, lo: int, hi: int) -> Seq<Seq<usize>> {
    concat_range(lo, hi + 1, selections_of(free))
}

/// Yields the selections of free slots that are tried.
pub struct SlotPlan {
    free: Vec<usize>,
    /// The size of the selections that come after the current ones.
    next_count: usize,
    max_count: usize,
    /// The selections of the current size.
    current: Option<Combinations<Range<usize>>>,
}

impl SlotPlan {
    /// The state is consistent.
    pub closed spec fn wf(&self) -> bool {
        &&& self.max_count <= self.free@.len()
        &&& self.free@.len() < usize::MAX
        &&& self.current matches Some(c) ==> selects(combinations_left(c), self.free@.len())
    }

    /// The slots that are selected from.
    pub closed spec fn free(&self) -> Seq<usize> {
        self.free@
    }

    /// The selections that are still to come, first one first.
    pub closed spec fn remaining(&self) -> Seq<Seq<usize>> {
        (match self.current {
            Some(c) => entries_at(self.free@, combinations_left(c)),
            None => Seq::empty(),
        }) + slot_selections(self.free@, self.next_count as int, self.max_count as int)
    }

    /// All selections of at least `lo` and at most `hi` of these slots.
    pub fn new(free: &[usize], lo: usize, hi: usize) -> (r: Self)
        requires
            hi <= free@.len() < usize::MAX,
        ensures
            r.wf(),
            r.free() == free@,
            r.remaining() == slot_selections(free@, lo as int, hi as int),
    {
        let mut list: Vec<usize> = Vec::new();
        list.extend_from_slice(free);
        assert(list@ =~= free@);
        let r = SlotPlan { free: list, next_count: lo, max_count: hi, current: None };
        assert(r.remaining() =~= slot_selections(free@, lo as int, hi as int));
        r
    }

    /// The next selection.
    pub fn next(&mut self) -> (r: Option<Vec<usize>>)
        requires
            old(self).wf(),
        ensures
            final(self).wf(),
            final(self).free() == old(self).free(),
            match r {
                Some(v) => {
                    &&& old(self).remaining().len() > 0
                    &&& v@ == old(self).remaining()[0]
                    &&& final(self).remaining() == old(self).remaining().drop_first()
                },
                None => {
                    &&& old(self).remaining().len() == 0
                    &&& final(self).remaining().len() == 0
                },
            },
    {
        let ghost free = self.free@;
        let ghost todo = self.remaining();
        let mut current = self.current.take();
        loop
            invariant
                self.free@ == free,
                self.max_count <= free.len() < usize::MAX,
                self.current is None,
                old(self).free() == free,
                old(self).remaining() == todo,
                current matches Some(c) ==> selects(combinations_left(c), free.len()),
                todo == (match current {
                    Some(c) => entries_at(free, combinations_left(c)),
                    None => Seq::empty(),
                }) + slot_selections(free, self.next_count as int, self.max_count as int),
            decreases self.max_count + 1 - self.next_count,
        {
            match current {
                Some(mut combos) => {
                    let ghost left = combinations_left(combos);
                    if let Some(places) = next_combination(&mut combos) {
                        proof {
                            assert(selects_places(left[0], free.len()));
                            assert forall|i: int| 0 <= i < places@.len() implies #[trigger] places@[i]
                                < free.len() by {
                                assert(ints(places@)[i] == left[0][i]);
                            }
                        }
                        let out = self.pick(&places);
                        self.current = Some(combos);
                        proof {
                            let now = combinations_left(combos);
                            assert forall|k: int| 0 <= k < now.len() implies selects_places(
                                #[trigger] now[k],
                                free.len(),
                            ) by {
                                assert(now[k] == left[k + 1]);
                            }
                            assert(entries_at(free, left)[0] == entries(free, left[0]));
                            assert(entries_at(free, left).drop_first() =~= entries_at(free, now));
                            assert(self.remaining() =~= todo.drop_first());
                        }
                        return Some(out);
                    }
                    assert(entries_at(free, left) =~= Seq::empty());
                },
                None => {},
            }
            if self.next_count > self.max_count {
                assert(self.remaining() =~= Seq::empty());
                return None;
            }
            let k = self.next_count;
            let combos = combinations_of(self.free.len(), k);
            proof {
                lemma_selects(free.len(), k as nat);
                lemma_concat_first(k as int, self.max_count + 1, selections_of(free));
                assert(todo =~= entries_at(free, combinations_left(combos)) + slot_selections(
                    free,
                    k + 1,
                    self.max_count as int,
                ));
            }
            self.next_count = k + 1;
            current = Some(combos);
        }
    }

    fn pick(&self, places: &Vec<usize>) -> (r: Vec<usize>)
        requires
            forall|i: int| 0 <= i < places@.len() ==> #[trigger] places@[i] < self.free@.len(),
        ensures
            r@ == entries(self.free@, ints(places@)),
    {
        let mut out: Vec<usize> = Vec::new();
        let mut i: usize = 0;
        while i < places.len()
            invariant
                i <= places.len(),
                forall|i: int| 0 <= i < places@.len() ==> #[trigger] places@[i] < self.free@.len(),
                out@.len() == i,
                forall|k: int| 0 <= k < i ==> #[trigger] out@[k] == self.free@[places@[k] as int],
            decreases places.len() - i,
        {
            out.push(self.free[places[i]]);
            i += 1;
        }
        assert(out@ =~= entries(self.free@, ints(places@)));
        out
    }
}

/// The places lie below `n`.
spec fn selects_places(c: Seq<int>, n: nat) -> bool {
    forall|i: int| 0 <= i < c.len() ==> 0 <= #[trigger] c[i] < n
}

/// The places of each of these selections lie below `n`.
spec fn selects(cs: Seq<Seq<int>>, n: nat) -> bool {
    forall|k: int| 0 <= k < cs.len() ==> selects_places(#[trigger] cs[k], n)
}

proof fn lemma_selects(n: nat, k: nat)
    ensures
        selects(combinations(0, n as int, k as int), n),
{
    let all = combinations(0, n as int, k as int);
    assert forall|i: int| 0 <= i < all.len() implies selects_places(#[trigger] all[i], n) by {
        assert(all.contains(all[i]));
        lemma_combinations_contains(0, n as int, k as int, all[i]);
    }
}

////// The slots themselves

/// The slots with these indices.
pub open spec fn slots_at(slots: Seq<SlotView>, at: Seq<usize>) -> Seq<SlotView> {
    at.map_values(|i: usize| slots[i as int])
}

/// Borrows the slots with these indices.
pub fn pick_slots<'a>(slots: &'a [TokenlistSlot], at: &[usize]) -> (r: Vec<&'a TokenlistSlot>)
    requires
        forall|k: int| 0 <= k < at@.len() ==> #[trigger] at@[k] < slots@.len(),
    ensures
        slot_ref_views(r@) == slots_at(slot_views(slots@), at@),
        r@.len() == at@.len(),
        forall|k: int| 0 <= k < at@.len() ==> *(#[trigger] r@[k]) == slots@[at@[k] as int],
{
    let mut out: Vec<&'a TokenlistSlot> = Vec::new();
    let mut i: usize = 0;
    while i < at.len()
        invariant
            i <= at.len(),
            forall|k: int| 0 <= k < at@.len() ==> #[trigger] at@[k] < slots@.len(),
            out@.len() == i,
            forall|k: int| 0 <= k < i ==> *(#[trigger] out@[k]) == slots@[at@[k] as int],
        decreases at.len() - i,
    {
        out.push(&slots[at[i]]);
        i += 1;
    }
    assert(slot_ref_views(out@) =~= slots_at(slot_views(slots@), at@));
    out
}

} // verus!
