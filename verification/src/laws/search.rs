//! Laws of the search through a tokenlist.
use vstd::prelude::*;

use crate::candidates::{code_of, movable_codes, words_known};
use crate::laws::candidates::{at_words, is_candidate, lemma_at_index, slot_options_are_all};
use crate::laws::phrases::{
    fills, free_words, is_slot_phrase, lemma_free_words_at, lemma_order_entries, phrases_of_slots,
    positions_of, slot_phrases_are_all,
};
use crate::laws::slots::{
    accepted_slots, fixed_positions_are_distinct, slot_in_order, slot_selections_are_all,
    slots_are_accepted, slots_are_parted,
};
use crate::listing::{concat_range, is_selection, lemma_concat_contains};
use crate::phrases::{slot_options, slot_orders};
use crate::places::has_number;
use crate::plan::{
    entries, fixed_slots, free_slots, least_free, least_slots, most_free, slots_at, slots_with,
};
use crate::search::{is_searchable, lemma_parts_len, selection_space, selections_tried};
use crate::tokenlist::slots_error;
use crate::tokens::{lemma_position, word_of, SlotView, TokenView};

verus! {

////// All phrases

/// The phrases of the `k`-th selection of slots, as a function of `k`.
pub open spec fn phrases_of_selection(
    slots: Seq<SlotView>,
    keep_token_order: bool,
    keep_word_order: bool,
    min_token: Option<usize>,
    list: Seq<Seq<char>>,
) -> spec_fn(int) -> Seq<Seq<u16>> {
    |k: int|
        selection_space(
            slots,
            selections_tried(slots, keep_token_order, min_token)[k],
            keep_token_order,
            keep_word_order,
            list,
        ).phrases()
}

/// All phrases that a search through a tokenlist tries.
pub open spec fn tokenlist_phrases(
    slots: Seq<SlotView>,
    keep_token_order: bool,
    keep_word_order: bool,
    min_token: Option<usize>,
    list: Seq<Seq<char>>,
) -> Seq<Seq<u16>> {
    concat_range(
        0,
        selections_tried(slots, keep_token_order, min_token).len() as int,
        phrases_of_selection(slots, keep_token_order, keep_word_order, min_token, list),
    )
}

/// The search tries exactly those phrases in which all slots with a fixed position, and one of the
/// selections of the others, stand as they may.
pub proof fn tokenlist_phrases_are_all(
    slots: Seq<SlotView>,
    keep_token_order: bool,
    keep_word_order: bool,
    min_token: Option<usize>,
    list: Seq<Seq<char>>,
    p: Seq<u16>,
)
    requires
        is_searchable(slots, list, keep_token_order),
        slots.len() <= usize::MAX,
    ensures
        tokenlist_phrases(slots, keep_token_order, keep_word_order, min_token, list).contains(p)
            <==> exists|chosen: Seq<usize>| #[trigger]
            selections_tried(slots, keep_token_order, min_token).contains(chosen)
                && is_slot_phrase(
                slots_at(slots, fixed_slots(slots, keep_token_order)),
                slots_at(slots, chosen),
                keep_token_order,
                keep_word_order,
                list,
                p,
            ),
{
    let tried = selections_tried(slots, keep_token_order, min_token);
    let fixed = slots_at(slots, fixed_slots(slots, keep_token_order));
    let f = phrases_of_selection(slots, keep_token_order, keep_word_order, min_token, list);
    fixed_positions_are_distinct(slots, list, keep_token_order);
    lemma_concat_contains(0, tried.len() as int, f, p);
    if tokenlist_phrases(slots, keep_token_order, keep_word_order, min_token, list).contains(p) {
        let k = choose|k: int| 0 <= k < tried.len() && #[trigger] f(k).contains(p);
        let chosen = tried[k];
        assert(tried.contains(chosen));
        slot_phrases_are_all(
            fixed,
            slots_at(slots, chosen),
            keep_token_order,
            keep_word_order,
            list,
            p,
        );
    }
    if exists|chosen: Seq<usize>| #[trigger]
        tried.contains(chosen) && is_slot_phrase(
            fixed,
            slots_at(slots, chosen),
            keep_token_order,
            keep_word_order,
            list,
            p,
        ) {
        let chosen = choose|chosen: Seq<usize>| #[trigger]
            tried.contains(chosen) && is_slot_phrase(
                fixed,
                slots_at(slots, chosen),
                keep_token_order,
                keep_word_order,
                list,
                p,
            );
        slot_phrases_are_all(
            fixed,
            slots_at(slots, chosen),
            keep_token_order,
            keep_word_order,
            list,
            p,
        );
        let k = tried.index_of(chosen);
        assert(f(k).contains(p));
    }
}

/// Every selection that is tried uses, together with the slots that have a fixed position, at least
/// as many slots as asked for, and no slot more than there are.
pub proof fn number_of_slots_used(
    slots: Seq<SlotView>,
    keep_token_order: bool,
    min_token: Option<usize>,
    chosen: Seq<usize>,
)
    requires
        selections_tried(slots, keep_token_order, min_token).contains(chosen),
    ensures
        least_slots(slots.len() as int, min_token) <= fixed_slots(slots, keep_token_order).len()
            + chosen.len() <= slots.len(),
{
    let fixed = fixed_slots(slots, keep_token_order);
    let free = free_slots(slots, keep_token_order);
    let lo = least_free(slots.len() as int, fixed.len() as int, min_token);
    let hi = most_free(slots.len() as int, fixed.len() as int, free.len() as int);
    lemma_parts_len(slots, keep_token_order);
    slot_selections_are_all(free, lo, hi, chosen);
}

proof fn lemma_fixed_count(slots: Seq<SlotView>)
    ensures
        slots_with(slots, true).len() == slots.filter(|s: SlotView| s.position is Some).len(),
    decreases slots.len(),
{
    reveal(Seq::filter);
    if slots.len() > 0 {
        lemma_fixed_count(slots.drop_last());
    }
}

proof fn lemma_selection_len(c: Seq<int>, n: int, i: int)
    requires
        is_selection(c, 0, n, c.len() as int),
        0 <= i < c.len(),
    ensures
        c[i] >= i,
    decreases i,
{
    if i > 0 {
        lemma_selection_len(c, n, i - 1);
        assert(c[i - 1] < c[i]);
    }
}

/// A selection of slots is tried exactly if it lists slots that have no position, or where the order
/// of the slots is kept any slots, in the order in which they are written, and is large enough:
/// together with the slots that have a position it has as many slots as asked for, or all of them
/// where nothing is asked for or more than there are.
pub proof fn selections_that_are_tried(
    slots: Seq<SlotView>,
    keep_token_order: bool,
    min_token: Option<usize>,
    chosen: Seq<usize>,
)
    requires
        slots.len() <= usize::MAX,
    ensures
        selections_tried(slots, keep_token_order, min_token).contains(chosen) <==> {
            let fixed = if keep_token_order {
                0
            } else {
                slots.filter(|s: SlotView| s.position is Some).len()
            };
            let least = match min_token {
                Some(m) => if m < slots.len() {
                    m as int
                } else {
                    slots.len() as int
                },
                None => slots.len() as int,
            };
            &&& forall|k: int|
                0 <= k < chosen.len() ==> (#[trigger] chosen[k]) < slots.len() && (keep_token_order
                    || slots[chosen[k] as int].position is None)
            &&& forall|k: int, l: int|
                0 <= k < l < chosen.len() ==> #[trigger] chosen[k] < #[trigger] chosen[l]
            &&& fixed + chosen.len() >= least
        },
{
    let fixed = fixed_slots(slots, keep_token_order);
    let free = free_slots(slots, keep_token_order);
    let lo = least_free(slots.len() as int, fixed.len() as int, min_token);
    let hi = most_free(slots.len() as int, fixed.len() as int, free.len() as int);
    let n = free.len() as int;
    lemma_parts_len(slots, keep_token_order);
    lemma_fixed_count(slots);
    slot_selections_are_all(free, lo, hi, chosen);
    if slots.len() > 0 {
        slots_are_parted(slots, keep_token_order, 0);
    }
    if selections_tried(slots, keep_token_order, min_token).contains(chosen) {
        let places = choose|places: Seq<int>|
            lo <= places.len() <= hi && #[trigger] is_selection(
                places,
                0,
                n,
                places.len() as int,
            ) && chosen == entries(free, places);
        assert forall|k: int| 0 <= k < chosen.len() implies (#[trigger] chosen[k]) < slots.len() && (
        keep_token_order || slots[chosen[k] as int].position is None) by {
            assert(0 <= places[k] < n);
            assert(chosen[k] == free[places[k]]);
            assert(free[places[k]] < slots.len());
            slots_are_parted(slots, keep_token_order, chosen[k] as int);
            assert(free.contains(chosen[k]));
        }
        assert forall|k: int, l: int| 0 <= k < l < chosen.len() implies #[trigger] chosen[k]
            < #[trigger] chosen[l] by {
            assert(places[k] < places[l]);
            assert(0 <= places[k] && places[l] < n);
            assert(free[places[k]] < free[places[l]]);
        }
    }
    if (forall|k: int|
        0 <= k < chosen.len() ==> (#[trigger] chosen[k]) < slots.len() && (keep_token_order
            || slots[chosen[k] as int].position is None)) && (forall|k: int, l: int|
        0 <= k < l < chosen.len() ==> #[trigger] chosen[k] < #[trigger] chosen[l]) && fixed.len()
        + chosen.len() >= least_slots(slots.len() as int, min_token) {
        let places = Seq::new(chosen.len(), |k: int| free.index_of(chosen[k]));
        assert forall|k: int| 0 <= k < places.len() implies 0 <= #[trigger] places[k] < n
            && free[places[k]] == chosen[k] by {
            assert(chosen[k] < slots.len());
            slots_are_parted(slots, keep_token_order, chosen[k] as int);
            assert(free.contains(chosen[k]));
        }
        assert forall|k: int, l: int| 0 <= k < l < places.len() implies #[trigger] places[k]
            < #[trigger] places[l] by {
            assert(chosen[k] < chosen[l]);
            assert(free[places[k]] == chosen[k] && free[places[l]] == chosen[l]);
            if places[l] < places[k] {
                assert(free[places[l]] < free[places[k]]);
            }
        }
        assert(is_selection(places, 0, n, places.len() as int));
        if places.len() > 0 {
            lemma_selection_len(places, n, places.len() - 1);
            assert(places[places.len() - 1] < n);
        }
        assert(entries(free, places) =~= chosen);
        assert(lo <= places.len() <= hi);
    }
}

proof fn lemma_filter_ext<T>(s: Seq<T>, f: spec_fn(T) -> bool, g: spec_fn(T) -> bool)
    requires
        forall|i: int| 0 <= i < s.len() ==> f(#[trigger] s[i]) == g(s[i]),
    ensures
        s.filter(f) == s.filter(g),
    decreases s.len(),
{
    reveal(Seq::filter);
    if s.len() > 0 {
        let less = s.drop_last();
        assert forall|i: int| 0 <= i < less.len() implies f(#[trigger] less[i]) == g(less[i]) by {
            assert(less[i] == s[i]);
        }
        lemma_filter_ext(less, f, g);
        assert(f(s[s.len() - 1]) == g(s[s.len() - 1]));
    }
}

/// The phrases that are tried for a selection of slots have twelve words. Each slot with a position
/// has there, counting from 1, a word that is one of its options; where the order of the slots is
/// kept, positions are not looked at. The selected slots are placed in some order, or in the one in
/// which they are selected where that is kept; an option of each of them, one behind the other, makes
/// up the words at the positions that are left. Every such phrase is tried.
pub proof fn phrases_of_a_selection(
    slots: Seq<SlotView>,
    chosen: Seq<usize>,
    keep_token_order: bool,
    keep_word_order: bool,
    list: Seq<Seq<char>>,
    p: Seq<u16>,
)
    requires
        slots.len() <= usize::MAX,
        slots_error(slots, list, keep_token_order) is None,
    ensures
        selection_space(slots, chosen, keep_token_order, keep_word_order, list).phrases().contains(
            p,
        ) <==> {
            &&& p.len() == 12
            &&& !keep_token_order ==> forall|i: int|
                0 <= i < slots.len() && (#[trigger] slots[i]).position is Some ==> slot_options(
                    slots[i].alts,
                    list,
                    keep_word_order,
                ).contains(seq![p[slots[i].position->0 - 1]])
            &&& exists|order: Seq<int>, parts: Seq<Seq<u16>>|
                #![trigger order.len(), parts.flatten()]
                order.to_multiset() == Seq::new(chosen.len(), |i: int| i).to_multiset() && (
                keep_token_order ==> order == Seq::new(chosen.len(), |i: int| i)) && parts.len()
                    == order.len() && (forall|j: int|
                    0 <= j < parts.len() ==> slot_options(
                        slots[chosen[order[j]] as int].alts,
                        list,
                        keep_word_order,
                    ).contains(#[trigger] parts[j])) && parts.flatten() == Seq::new(
                    12,
                    |q: int| q,
                ).filter(
                    |q: int|
                        keep_token_order || forall|i: int|
                            0 <= i < slots.len() ==> (#[trigger] slots[i]).position != Some(
                                (q + 1) as usize,
                            ),
                ).map_values(|q: int| p[q])
        },
{
    broadcast use vstd::seq_lib::group_to_multiset_ensures;

    let at = fixed_slots(slots, keep_token_order);
    let fixed = slots_at(slots, at);
    let free = slots_at(slots, chosen);
    let n = chosen.len();
    slots_are_accepted(slots, list, keep_token_order);
    if slots.len() > 0 {
        slots_are_parted(slots, keep_token_order, 0);
    }
    assert forall|k: int| 0 <= k < at.len() implies (#[trigger] at[k]) < slots.len()
        && !keep_token_order && slots[at[k] as int].position is Some by {
        assert(at.contains(at[k]));
        if slots.len() > 0 {
            slots_are_parted(slots, keep_token_order, at[k] as int);
        }
    }
    assert forall|i: int| 0 <= i < fixed.len() implies ((
    #[trigger] fixed[i]).position matches Some(a) && 1 <= a <= 12) by {
        assert(at[i] < slots.len());
        assert(fixed[i] == slots[at[i] as int]);
        assert(slots[at[i] as int].position is Some);
    }
    assert forall|i: int, j: int| 0 <= i < j < fixed.len() implies (#[trigger] fixed[i]).position
        != (#[trigger] fixed[j]).position by {
        assert(at[i] < at[j]);
        assert(fixed[i] == slots[at[i] as int] && fixed[j] == slots[at[j] as int]);
        assert(slots[at[i] as int].position is Some);
    }
    phrases_of_slots(fixed, free, keep_token_order, keep_word_order, list, p);
    let claimed = |q: int|
        !fixed.map_values(|s: SlotView| (s.position->0 - 1) as usize).contains(q as usize);
    let open = |q: int|
        keep_token_order || forall|i: int|
            0 <= i < slots.len() ==> (#[trigger] slots[i]).position != Some((q + 1) as usize);
    let all = Seq::new(12, |q: int| q);
    assert forall|k: int| 0 <= k < all.len() implies claimed(#[trigger] all[k]) == open(all[k]) by {
        let q = all[k];
        let places = fixed.map_values(|s: SlotView| (s.position->0 - 1) as usize);
        if places.contains(q as usize) {
            let i = places.index_of(q as usize);
            assert(fixed[i] == slots[at[i] as int]);
            assert(at[i] < slots.len());
            assert(fixed[i].position is Some);
            assert(slots[at[i] as int].position == Some((q + 1) as usize));
        }
        if !keep_token_order && exists|i: int|
            0 <= i < slots.len() && (#[trigger] slots[i]).position == Some((q + 1) as usize) {
            let i = choose|i: int|
                0 <= i < slots.len() && (#[trigger] slots[i]).position == Some((q + 1) as usize);
            slots_are_parted(slots, keep_token_order, i);
            let j = at.index_of(i as usize);
            assert(fixed[j] == slots[i]);
            assert(places[j] == q as usize);
        }
    }
    lemma_filter_ext(all, claimed, open);
    let words = all.filter(open).map_values(|q: int| p[q]);
    assert forall|order: Seq<int>, j: int|
        order.to_multiset() == Seq::new(n, |i: int| i).to_multiset() && 0 <= j
            < order.len() implies free[#[trigger] order[j]] == slots[chosen[order[j]] as int] by {
        let whole = Seq::new(n, |i: int| i);
        assert(order.contains(order[j]));
        assert(whole.to_multiset().count(order[j]) > 0);
        assert(whole.contains(order[j]));
    }
    let inner = |order: Seq<int>, parts: Seq<Seq<u16>>|
        order.to_multiset() == Seq::new(n, |i: int| i).to_multiset() && (keep_token_order
            ==> order == Seq::new(n, |i: int| i)) && parts.len() == order.len() && parts.flatten()
            == words;
    if p.len() == 12 {
        if !keep_token_order {
            if forall|i: int|
                0 <= i < fixed.len() ==> slot_options(
                    (#[trigger] fixed[i]).alts,
                    list,
                    keep_word_order,
                ).contains(seq![p[fixed[i].position->0 - 1]]) {
                assert forall|i: int| 0 <= i < slots.len() && (#[trigger] slots[i]).position
                    is Some implies slot_options(
                    slots[i].alts,
                    list,
                    keep_word_order,
                ).contains(seq![p[slots[i].position->0 - 1]]) by {
                    slots_are_parted(slots, keep_token_order, i);
                    let j = at.index_of(i as usize);
                    assert(fixed[j] == slots[i]);
                }
            }
            if forall|i: int|
                0 <= i < slots.len() && (#[trigger] slots[i]).position is Some ==> slot_options(
                    slots[i].alts,
                    list,
                    keep_word_order,
                ).contains(seq![p[slots[i].position->0 - 1]]) {
                assert forall|i: int| 0 <= i < fixed.len() implies slot_options(
                    (#[trigger] fixed[i]).alts,
                    list,
                    keep_word_order,
                ).contains(seq![p[fixed[i].position->0 - 1]]) by {
                    assert(at[i] < slots.len());
                    assert(fixed[i] == slots[at[i] as int]);
                }
            }
        }
        if exists|order: Seq<int>, parts: Seq<Seq<u16>>|
            #![trigger order.len(), parts.flatten()]
            inner(order, parts) && (forall|j: int|
                0 <= j < parts.len() ==> slot_options(
                    free[order[j]].alts,
                    list,
                    keep_word_order,
                ).contains(#[trigger] parts[j])) {
            let (order, parts) = choose|order: Seq<int>, parts: Seq<Seq<u16>>|
                #![trigger order.len(), parts.flatten()]
                inner(order, parts) && (forall|j: int|
                    0 <= j < parts.len() ==> slot_options(
                        free[order[j]].alts,
                        list,
                        keep_word_order,
                    ).contains(#[trigger] parts[j]));
            assert forall|j: int| 0 <= j < parts.len() implies slot_options(
                slots[chosen[order[j]] as int].alts,
                list,
                keep_word_order,
            ).contains(#[trigger] parts[j]) by {
                assert(free[order[j]] == slots[chosen[order[j]] as int]);
            }
            assert(order.len() == parts.len() && parts.flatten() == words);
        }
        if exists|order: Seq<int>, parts: Seq<Seq<u16>>|
            #![trigger order.len(), parts.flatten()]
            inner(order, parts) && (forall|j: int|
                0 <= j < parts.len() ==> slot_options(
                    slots[chosen[order[j]] as int].alts,
                    list,
                    keep_word_order,
                ).contains(#[trigger] parts[j])) {
            let (order, parts) = choose|order: Seq<int>, parts: Seq<Seq<u16>>|
                #![trigger order.len(), parts.flatten()]
                inner(order, parts) && (forall|j: int|
                    0 <= j < parts.len() ==> slot_options(
                        slots[chosen[order[j]] as int].alts,
                        list,
                        keep_word_order,
                    ).contains(#[trigger] parts[j]));
            assert forall|j: int| 0 <= j < parts.len() implies slot_options(
                free[order[j]].alts,
                list,
                keep_word_order,
            ).contains(#[trigger] parts[j]) by {
                assert(free[order[j]] == slots[chosen[order[j]] as int]);
            }
            assert(order.len() == parts.len() && parts.flatten() == words);
        }
    }
}

////// Word numbers

proof fn lemma_code_listed(list: Seq<Seq<char>>, w: Seq<char>)
    requires
        list.contains(w),
        list.len() <= u16::MAX,
    ensures
        code_of(list, w) < list.len(),
        list[code_of(list, w) as int] == w,
{
    lemma_position(list, w);
}

proof fn lemma_movable_listed(alt: Seq<TokenView>, list: Seq<Seq<char>>, k: int)
    requires
        words_known(alt, list),
        list.len() <= u16::MAX,
        0 <= k < movable_codes(alt, list).len(),
    ensures
        movable_codes(alt, list)[k] < list.len(),
    decreases alt.len(),
{
    let init = alt.drop_last();
    assert forall|i: int| 0 <= i < init.len() implies (#[trigger] word_of(init[i]) matches Some(w)
        ==> list.contains(w)) by {
        assert(word_of(alt[i]) == word_of(init[i]));
    }
    if k < movable_codes(init, list).len() {
        lemma_movable_listed(init, list, k);
    } else {
        assert(word_of(alt[alt.len() - 1]) matches Some(w) && list.contains(w));
        lemma_code_listed(list, word_of(alt.last())->0);
    }
}

proof fn lemma_candidate_listed(
    alt: Seq<TokenView>,
    list: Seq<Seq<char>>,
    keep_word_order: bool,
    c: Seq<u16>,
    i: int,
)
    requires
        words_known(alt, list),
        list.len() <= u16::MAX,
        is_candidate(alt, list, keep_word_order, c),
        0 <= i < c.len(),
    ensures
        c[i] < list.len(),
{
    broadcast use vstd::seq_lib::group_to_multiset_ensures;

    match alt[i] {
        TokenView::PinnedWord(w) => {
            assert(word_of(alt[i]) == Some(w));
            lemma_code_listed(list, w);
        },
        TokenView::Missing => {},
        TokenView::Word(w) => {
            lemma_at_index(alt, list, c, i);
            let ws = at_words(alt, c);
            let movable = movable_codes(alt, list);
            assert(ws.contains(c[i]));
            assert(ws.to_multiset().count(c[i]) > 0);
            assert(movable.to_multiset().count(c[i]) > 0);
            assert(movable.contains(c[i]));
            let k = movable.index_of(c[i]);
            lemma_movable_listed(alt, list, k);
        },
    }
}

proof fn lemma_option_listed(
    s: SlotView,
    list: Seq<Seq<char>>,
    keep_word_order: bool,
    c: Seq<u16>,
    i: int,
)
    requires
        forall|a: int| 0 <= a < s.alts.len() ==> words_known(#[trigger] s.alts[a], list),
        forall|a: int| 0 <= a < s.alts.len() ==> (#[trigger] s.alts[a]).len() <= usize::MAX,
        list.len() <= u16::MAX,
        slot_options(s.alts, list, keep_word_order).contains(c),
        0 <= i < c.len(),
    ensures
        c[i] < list.len(),
{
    slot_options_are_all(s.alts, list, keep_word_order, c);
    let a = choose|a: int|
        0 <= a < s.alts.len() && is_candidate(#[trigger] s.alts[a], list, keep_word_order, c);
    lemma_candidate_listed(s.alts[a], list, keep_word_order, c, i);
}

/// No alternative is longer than a list can be.
pub open spec fn alternatives_fit(slots: Seq<SlotView>) -> bool {
    forall|i: int, a: int|
        0 <= i < slots.len() && 0 <= a < slots[i].alts.len() ==> (#[trigger] slots[i].alts[a]).len()
            <= usize::MAX
}

/// Every number in a phrase that is tried stands for a word of the list.
pub proof fn phrase_words_are_listed(
    slots: Seq<SlotView>,
    chosen: Seq<usize>,
    keep_token_order: bool,
    keep_word_order: bool,
    min_token: Option<usize>,
    list: Seq<Seq<char>>,
    p: Seq<u16>,
    q: int,
)
    requires
        is_searchable(slots, list, keep_token_order),
        alternatives_fit(slots),
        slots.len() <= usize::MAX,
        selections_tried(slots, keep_token_order, min_token).contains(chosen),
        selection_space(slots, chosen, keep_token_order, keep_word_order, list).phrases().contains(
            p,
        ),
        0 <= q < 12,
    ensures
        p.len() == 12,
        p[q] < list.len(),
{
    let at = fixed_slots(slots, keep_token_order);
    let fixed = slots_at(slots, at);
    let free = slots_at(slots, chosen);
    fixed_positions_are_distinct(slots, list, keep_token_order);
    slot_phrases_are_all(fixed, free, keep_token_order, keep_word_order, list, p);
    accepted_slots(slots, list, keep_token_order);
    let places = positions_of(fixed);
    if has_number(places, q) {
        let i = choose|i: int| 0 <= i < places.len() && #[trigger] places[i] == q;
        let si = at[i] as int;
        slots_are_parted(slots, keep_token_order, 0);
        assert(at[i] < slots.len());
        assert(fixed[i] == slots[si]);
        assert(slot_in_order(slots, si, list, keep_token_order));
        let c = seq![p[places[i] as int]];
        assert(slot_options(fixed[i].alts, list, keep_word_order).contains(c));
        lemma_option_listed(slots[si], list, keep_word_order, c, 0);
    } else {
        let (order, parts) = choose|order: Seq<int>, parts: Seq<Seq<u16>>|
            slot_orders(free.len(), keep_token_order).contains(order) && #[trigger] fills(
                fixed,
                free,
                keep_word_order,
                list,
                order,
                parts,
                p,
            );
        lemma_order_entries(free.len(), keep_token_order, order);
        lemma_free_words_at(places, p, 12, q);
        let line = free_words(places, p, 12);
        let f = |j: int| parts[j];
        assert(line.contains(p[q]));
        assert(line == concat_range(0, parts.len() as int, f));
        lemma_concat_contains(0, parts.len() as int, f, p[q]);
        let j = choose|j: int| 0 <= j < parts.len() && #[trigger] f(j).contains(p[q]);
        let i = parts[j].index_of(p[q]);
        let si = chosen[order[j]] as int;
        lemma_chosen_in_range(slots, keep_token_order, min_token, chosen, order[j]);
        assert(free[order[j]] == slots[si]);
        assert(slot_in_order(slots, si, list, keep_token_order));
        assert(slot_options(free[order[j]].alts, list, keep_word_order).contains(parts[j]));
        lemma_option_listed(slots[si], list, keep_word_order, parts[j], i);
    }
}

proof fn lemma_chosen_in_range(
    slots: Seq<SlotView>,
    keep_token_order: bool,
    min_token: Option<usize>,
    chosen: Seq<usize>,
    i: int,
)
    requires
        slots.len() <= usize::MAX,
        selections_tried(slots, keep_token_order, min_token).contains(chosen),
        0 <= i < chosen.len(),
    ensures
        chosen[i] < slots.len(),
{
    let fixed = fixed_slots(slots, keep_token_order);
    let free = free_slots(slots, keep_token_order);
    let lo = least_free(slots.len() as int, fixed.len() as int, min_token);
    let hi = most_free(slots.len() as int, fixed.len() as int, free.len() as int);
    slot_selections_are_all(free, lo, hi, chosen);
    let places = choose|places: Seq<int>|
        lo <= places.len() <= hi && #[trigger] is_selection(
            places,
            0,
            free.len() as int,
            places.len() as int,
        ) && chosen == entries(free, places);
    assert(0 <= places[i] < free.len());
    if slots.len() > 0 {
        slots_are_parted(slots, keep_token_order, 0);
    }
    assert(free[places[i]] < slots.len());
}

} // verus!
