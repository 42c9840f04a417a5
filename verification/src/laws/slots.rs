//! Laws of the slots of a tokenlist.
use vstd::prelude::*;

use crate::candidates::words_known;
use crate::laws::phrases::{are_positions, positions_of};
use crate::listing::{
    combinations, is_selection, lemma_combinations_contains, lemma_concat_contains,
};
use crate::phrases::{slot_fixed, slot_usable};
use crate::plan::{
    entries, fixed_slots, free_slots, selections_of, slot_selections, slots_at, slots_with,
};
use crate::text::words;
use crate::tokenlist::{
    alternatives_of, first_error, first_no_word, lemma_nonempty, line_view, line_views, not_single,
    position_taken, slot_error, slots_error, slots_in, tokenlist_slots, tokens_of, unknown_in,
    unknown_word, LineView, SlotError, SlotErrorView,
};
use crate::tokens::{word_of, SlotView, TokenView};

verus! {

////// Reading

proof fn lemma_slots_in(lines: Seq<LineView>, i: int) -> (k: int)
    requires
        0 <= i < slots_in(lines).len(),
    ensures
        0 <= k < lines.len(),
        lines[k] == LineView::Slot(slots_in(lines)[i]),
    decreases lines.len(),
{
    if i < slots_in(lines.drop_last()).len() {
        lemma_slots_in(lines.drop_last(), i)
    } else {
        lines.len() - 1
    }
}

/// A tokenlist that is read gives at least one slot, every slot has an alternative, and every
/// alternative has a word.
pub proof fn slots_that_are_read(content: Seq<char>)
    requires
        tokenlist_slots(content) is Ok,
    ensures
        tokenlist_slots(content)->Ok_0.len() > 0,
        forall|i: int|
            0 <= i < tokenlist_slots(content)->Ok_0.len() ==> (#[trigger] tokenlist_slots(
                content,
            )->Ok_0[i]).alts.len() > 0,
        forall|i: int, a: int|
            0 <= i < tokenlist_slots(content)->Ok_0.len() && 0 <= a < tokenlist_slots(
                content,
            )->Ok_0[i].alts.len() ==> (#[trigger] tokenlist_slots(content)->Ok_0[i].alts[a]).len()
                > 0,
{
    let lines = line_views(content);
    let slots = slots_in(lines);
    assert forall|i: int| 0 <= i < slots.len() implies (#[trigger] slots[i]).alts.len() > 0 by {
        let k = lemma_slots_in(lines, i);
        assert(lines[k] == LineView::Slot(slots[i]));
    }
    assert forall|i: int, a: int|
        0 <= i < slots.len() && 0 <= a < slots[i].alts.len() implies (#[trigger] slots[i].alts[a]).len()
        > 0 by {
        let k = lemma_slots_in(lines, i);
        assert(lines[k] == LineView::Slot(slots[i]));
        let parts = words(crate::text::pieces(content, crate::text::Separator::Newline)[k]);
        let rest = if crate::text::parsed_number(parts[0]) is Some {
            parts.drop_first()
        } else {
            parts
        };
        assert(slots[i].alts == alternatives_of(rest));
        lemma_nonempty(rest.map_values(|p: Seq<char>| tokens_of(p)));
    }
}

/// Blank lines and comments make no difference to the slots.
pub proof fn ignored_lines_make_no_difference(
    before: Seq<LineView>,
    line: Seq<char>,
    after: Seq<LineView>,
)
    requires
        words(line).len() == 0 || words(line)[0][0] == '#',
    ensures
        line_view(line) is Ignored,
        slots_in(before.push(line_view(line)) + after) == slots_in(before + after),
        (first_no_word(before.push(line_view(line)) + after) is None) == (first_no_word(
            before + after,
        ) is None),
    decreases after.len(),
{
    let x = line_view(line);
    let with = before.push(x) + after;
    let without = before + after;
    if after.len() == 0 {
        assert(with =~= before.push(x));
        assert(without =~= before);
        assert(before.push(x).drop_last() =~= before);
    } else {
        let less = after.drop_last();
        ignored_lines_make_no_difference(before, line, less);
        assert(with.drop_last() =~= before.push(x) + less);
        assert(without.drop_last() =~= before + less);
        assert(with.last() == after.last());
        assert(without.last() == after.last());
    }
}

////// Checking

/// What is asked of the `i`-th slot: its words are in the list, and where it has a position, that
/// lies in the phrase, no earlier slot has it, all alternatives are single words, and where the
/// order of the slots is kept it is the number of the slot.
pub open spec fn slot_in_order(
    slots: Seq<SlotView>,
    i: int,
    list: Seq<Seq<char>>,
    keep_token_order: bool,
) -> bool {
    &&& forall|a: int|
        0 <= a < slots[i].alts.len() ==> words_known(#[trigger] slots[i].alts[a], list)
    &&& slots[i].position matches Some(p) ==> {
        &&& 1 <= p <= 12
        &&& forall|j: int| 0 <= j < i ==> (#[trigger] slots[j]).position != Some(p)
        &&& forall|a: int| 0 <= a < slots[i].alts.len() ==> (#[trigger] slots[i].alts[a]).len() == 1
        &&& keep_token_order ==> p == i + 1
    }
}

proof fn lemma_unknown_word(alt: Seq<TokenView>, list: Seq<Seq<char>>)
    ensures
        unknown_word(alt, list) is None <==> words_known(alt, list),
    decreases alt.len(),
{
    if alt.len() > 0 {
        let init = alt.drop_last();
        lemma_unknown_word(init, list);
        if words_known(alt, list) {
            assert forall|i: int| 0 <= i < init.len() implies (#[trigger] word_of(init[i]) matches Some(
                w,
            ) ==> list.contains(w)) by {
                assert(word_of(alt[i]) == word_of(init[i]));
            }
            assert(word_of(alt[alt.len() - 1]) matches Some(w) ==> list.contains(w));
        }
        if unknown_word(alt, list) is None {
            assert forall|i: int| 0 <= i < alt.len() implies (#[trigger] word_of(alt[i]) matches Some(
                w,
            ) ==> list.contains(w)) by {
                if i < init.len() {
                    assert(word_of(init[i]) == word_of(alt[i]));
                }
            }
        }
    }
}

proof fn lemma_unknown_in(alts: Seq<Seq<TokenView>>, list: Seq<Seq<char>>)
    ensures
        unknown_in(alts, list) is None <==> forall|a: int|
            0 <= a < alts.len() ==> words_known(#[trigger] alts[a], list),
    decreases alts.len(),
{
    if alts.len() > 0 {
        let init = alts.drop_last();
        lemma_unknown_in(init, list);
        lemma_unknown_word(alts.last(), list);
        if unknown_in(alts, list) is None {
            assert forall|a: int| 0 <= a < alts.len() implies words_known(
                #[trigger] alts[a],
                list,
            ) by {
                if a < init.len() {
                    assert(init[a] == alts[a]);
                }
            }
        }
        if forall|a: int| 0 <= a < alts.len() ==> words_known(#[trigger] alts[a], list) {
            assert forall|a: int| 0 <= a < init.len() implies words_known(
                #[trigger] init[a],
                list,
            ) by {
                assert(init[a] == alts[a]);
            }
            assert(words_known(alts[alts.len() - 1], list));
        }
    }
}

proof fn lemma_not_single(alts: Seq<Seq<TokenView>>)
    ensures
        not_single(alts) is None <==> forall|a: int|
            0 <= a < alts.len() ==> (#[trigger] alts[a]).len() == 1,
    decreases alts.len(),
{
    if alts.len() > 0 {
        let init = alts.drop_last();
        lemma_not_single(init);
        if not_single(alts) is None {
            assert forall|a: int| 0 <= a < alts.len() implies (#[trigger] alts[a]).len() == 1 by {
                if a < init.len() {
                    assert(init[a] == alts[a]);
                }
            }
        }
        if forall|a: int| 0 <= a < alts.len() ==> (#[trigger] alts[a]).len() == 1 {
            assert forall|a: int| 0 <= a < init.len() implies (#[trigger] init[a]).len() == 1 by {
                assert(init[a] == alts[a]);
            }
            assert(alts[alts.len() - 1].len() == 1);
        }
    }
}

proof fn lemma_slot_error(
    slots: Seq<SlotView>,
    i: int,
    list: Seq<Seq<char>>,
    keep_token_order: bool,
)
    requires
        0 <= i < slots.len(),
    ensures
        slot_error(slots, i, list, keep_token_order) is None <==> slot_in_order(
            slots,
            i,
            list,
            keep_token_order,
        ),
{
    lemma_unknown_in(slots[i].alts, list);
    lemma_not_single(slots[i].alts);
    if let Some(p) = slots[i].position {
        if position_taken(slots, i, p) {
            let j = choose|j: int| 0 <= j < i && #[trigger] slots[j].position == Some(p);
            assert(slots[j].position == Some(p));
        }
    }
}

proof fn lemma_first_error_none(
    slots: Seq<SlotView>,
    n: int,
    list: Seq<Seq<char>>,
    keep_token_order: bool,
)
    requires
        0 <= n <= slots.len(),
    ensures
        first_error(slots, n, list, keep_token_order) is None <==> forall|i: int|
            0 <= i < n ==> #[trigger] slot_in_order(slots, i, list, keep_token_order),
    decreases n,
{
    if n > 0 {
        lemma_first_error_none(slots, n - 1, list, keep_token_order);
        lemma_slot_error(slots, n - 1, list, keep_token_order);
        if forall|i: int| 0 <= i < n ==> #[trigger] slot_in_order(slots, i, list, keep_token_order) {
            assert(slot_in_order(slots, n - 1, list, keep_token_order));
        }
    }
}

/// The slots of a tokenlist are accepted exactly if each of them is in order.
pub proof fn accepted_slots(slots: Seq<SlotView>, list: Seq<Seq<char>>, keep_token_order: bool)
    ensures
        slots_error(slots, list, keep_token_order) is None <==> forall|i: int|
            0 <= i < slots.len() ==> #[trigger] slot_in_order(slots, i, list, keep_token_order),
{
    lemma_first_error_none(slots, slots.len() as int, list, keep_token_order);
}

/// The slots of a tokenlist are accepted exactly if all of their words are in the list and every
/// position lies in `1..=12`, is given once, belongs to a slot of single words and, where the order
/// of the slots is kept, is the number of its slot.
pub proof fn slots_are_accepted(slots: Seq<SlotView>, list: Seq<Seq<char>>, keep_token_order: bool)
    ensures
        slots_error(slots, list, keep_token_order) is None <==> {
            &&& forall|i: int, a: int, t: int|
                0 <= i < slots.len() && 0 <= a < slots[i].alts.len() && 0 <= t
                    < slots[i].alts[a].len() ==> match #[trigger] slots[i].alts[a][t] {
                    TokenView::Word(w) => list.contains(w),
                    TokenView::PinnedWord(w) => list.contains(w),
                    TokenView::Missing => true,
                }
            &&& forall|i: int|
                0 <= i < slots.len() ==> ((#[trigger] slots[i]).position matches Some(p) ==> 1 <= p
                    <= 12)
            &&& forall|i: int, j: int|
                0 <= i < j < slots.len() && (#[trigger] slots[i]).position is Some ==> slots[i].position
                    != (#[trigger] slots[j]).position
            &&& forall|i: int, a: int|
                0 <= i < slots.len() && 0 <= a < slots[i].alts.len() && slots[i].position is Some
                    ==> (#[trigger] slots[i].alts[a]).len() == 1
            &&& keep_token_order ==> forall|i: int|
                0 <= i < slots.len() ==> ((#[trigger] slots[i]).position matches Some(p) ==> p == i
                    + 1)
        },
{
    accepted_slots(slots, list, keep_token_order);
    let all = slots_error(slots, list, keep_token_order) is None;
    if all {
        assert forall|i: int, a: int, t: int|
            0 <= i < slots.len() && 0 <= a < slots[i].alts.len() && 0 <= t
                < slots[i].alts[a].len() implies match #[trigger] slots[i].alts[a][t] {
            TokenView::Word(w) => list.contains(w),
            TokenView::PinnedWord(w) => list.contains(w),
            TokenView::Missing => true,
        } by {
            assert(slot_in_order(slots, i, list, keep_token_order));
            assert(words_known(slots[i].alts[a], list));
            assert(word_of(slots[i].alts[a][t]) matches Some(w) ==> list.contains(w));
        }
        assert forall|i: int| 0 <= i < slots.len() implies ((
        #[trigger] slots[i]).position matches Some(p) ==> 1 <= p <= 12 && (keep_token_order ==> p
            == i + 1)) by {
            assert(slot_in_order(slots, i, list, keep_token_order));
        }
        assert forall|i: int, j: int|
            0 <= i < j < slots.len() && (#[trigger] slots[i]).position
                is Some implies slots[i].position != (#[trigger] slots[j]).position by {
            assert(slot_in_order(slots, j, list, keep_token_order));
        }
        assert forall|i: int, a: int|
            0 <= i < slots.len() && 0 <= a < slots[i].alts.len() && slots[i].position
                is Some implies (#[trigger] slots[i].alts[a]).len() == 1 by {
            assert(slot_in_order(slots, i, list, keep_token_order));
        }
    }
    if !all {
        let i = choose|i: int|
            0 <= i < slots.len() && !(#[trigger] slot_in_order(slots, i, list, keep_token_order));
        if exists|a: int| 0 <= a < slots[i].alts.len() && !words_known(
            #[trigger] slots[i].alts[a],
            list,
        ) {
            let a = choose|a: int|
                0 <= a < slots[i].alts.len() && !words_known(#[trigger] slots[i].alts[a], list);
            let alt = slots[i].alts[a];
            let t = choose|t: int|
                0 <= t < alt.len() && !(#[trigger] word_of(alt[t]) matches Some(w)
                    ==> list.contains(w));
            assert(slots[i].alts[a][t] == alt[t]);
        } else {
            let p = slots[i].position->0;
            if exists|j: int| 0 <= j < i && (#[trigger] slots[j]).position == Some(p) {
                let j = choose|j: int| 0 <= j < i && (#[trigger] slots[j]).position == Some(p);
                assert(slots[j].position is Some && slots[j].position == slots[i].position);
            } else if exists|a: int|
                0 <= a < slots[i].alts.len() && (#[trigger] slots[i].alts[a]).len() != 1 {
                let a = choose|a: int|
                    0 <= a < slots[i].alts.len() && (#[trigger] slots[i].alts[a]).len() != 1;
                assert(slots[i].alts[a].len() != 1);
            }
        }
    }
}

proof fn lemma_unknown_word_at(alt: Seq<TokenView>, list: Seq<Seq<char>>) -> (t: int)
    requires
        unknown_word(alt, list) is Some,
    ensures
        0 <= t < alt.len(),
        word_of(alt[t]) == unknown_word(alt, list),
        !list.contains(unknown_word(alt, list)->0),
        forall|u: int|
            0 <= u < t ==> (word_of(#[trigger] alt[u]) matches Some(w) ==> list.contains(w)),
    decreases alt.len(),
{
    let init = alt.drop_last();
    if unknown_word(init, list) is Some {
        let t = lemma_unknown_word_at(init, list);
        assert forall|u: int| 0 <= u < t implies (word_of(#[trigger] alt[u]) matches Some(w)
            ==> list.contains(w)) by {
            assert(init[u] == alt[u]);
        }
        t
    } else {
        lemma_unknown_word(init, list);
        assert forall|u: int| 0 <= u < alt.len() - 1 implies (word_of(
            #[trigger] alt[u],
        ) matches Some(w) ==> list.contains(w)) by {
            assert(word_of(init[u]) == word_of(alt[u]));
        }
        alt.len() - 1
    }
}

proof fn lemma_unknown_in_at(alts: Seq<Seq<TokenView>>, list: Seq<Seq<char>>)
    requires
        unknown_in(alts, list) is Some,
    ensures
        0 <= (unknown_in(alts, list)->0).0 < alts.len(),
        unknown_word(alts[(unknown_in(alts, list)->0).0], list) == Some(
            (unknown_in(alts, list)->0).1,
        ),
        forall|a: int|
            0 <= a < (unknown_in(alts, list)->0).0 ==> unknown_word(#[trigger] alts[a], list)
                is None,
    decreases alts.len(),
{
    let init = alts.drop_last();
    if unknown_in(init, list) is Some {
        lemma_unknown_in_at(init, list);
        assert forall|a: int| 0 <= a < (unknown_in(alts, list)->0).0 implies unknown_word(
            #[trigger] alts[a],
            list,
        ) is None by {
            assert(init[a] == alts[a]);
        }
    } else {
        lemma_unknown_in(init, list);
        assert forall|a: int| 0 <= a < alts.len() - 1 implies unknown_word(
            #[trigger] alts[a],
            list,
        ) is None by {
            assert(init[a] == alts[a]);
            lemma_unknown_word(alts[a], list);
        }
    }
}

proof fn lemma_not_single_at(alts: Seq<Seq<TokenView>>)
    requires
        not_single(alts) is Some,
    ensures
        0 <= not_single(alts)->0 < alts.len(),
        alts[not_single(alts)->0].len() != 1,
        forall|a: int| 0 <= a < not_single(alts)->0 ==> (#[trigger] alts[a]).len() == 1,
    decreases alts.len(),
{
    let init = alts.drop_last();
    if not_single(init) is Some {
        lemma_not_single_at(init);
        assert forall|a: int| 0 <= a < not_single(alts)->0 implies (#[trigger] alts[a]).len()
            == 1 by {
            assert(init[a] == alts[a]);
        }
    } else {
        lemma_not_single(init);
        assert forall|a: int| 0 <= a < alts.len() - 1 implies (#[trigger] alts[a]).len() == 1 by {
            assert(init[a] == alts[a]);
        }
    }
}

proof fn lemma_first_error_at(
    slots: Seq<SlotView>,
    n: int,
    list: Seq<Seq<char>>,
    keep_token_order: bool,
) -> (i: int)
    requires
        0 <= n <= slots.len(),
        first_error(slots, n, list, keep_token_order) is Some,
    ensures
        0 <= i < n,
        first_error(slots, i, list, keep_token_order) is None,
        slot_error(slots, i, list, keep_token_order) == first_error(
            slots,
            n,
            list,
            keep_token_order,
        ),
    decreases n,
{
    if first_error(slots, n - 1, list, keep_token_order) is Some {
        lemma_first_error_at(slots, n - 1, list, keep_token_order)
    } else {
        n - 1
    }
}

/// What is reported of slots that are refused is the first thing that is wrong: it is about the
/// first slot that is not accepted together with those before it. Counting from 1, a word that is
/// not in the list is the first such word of the first alternative that has one; a position is
/// reported as out of range, then as taken, then as belonging to an alternative that is not a single
/// word, the first one, and then as not being the number of its slot.
pub proof fn refused_slot(slots: Seq<SlotView>, list: Seq<Seq<char>>, keep_token_order: bool) -> (i:
    int)
    requires
        slots_error(slots, list, keep_token_order) is Some,
    ensures
        0 <= i < slots.len(),
        slots_error(slots.take(i), list, keep_token_order) is None,
        match slots_error(slots, list, keep_token_order)->0 {
            SlotErrorView::UnknownWord { slot, alt, word } => {
                &&& slot == i + 1
                &&& 1 <= alt <= slots[i].alts.len()
                &&& !list.contains(word)
                &&& exists|t: int|
                    0 <= t < slots[i].alts[alt - 1].len() && word_of(
                        #[trigger] slots[i].alts[alt - 1][t],
                    ) == Some(word) && forall|u: int|
                        0 <= u < t ==> (word_of(#[trigger] slots[i].alts[alt - 1][u]) matches Some(w)
                            ==> list.contains(w))
                &&& forall|a: int, t: int|
                    0 <= a < alt - 1 && 0 <= t < slots[i].alts[a].len() ==> (word_of(
                        #[trigger] slots[i].alts[a][t],
                    ) matches Some(w) ==> list.contains(w))
            },
            SlotErrorView::PositionOutOfRange { slot, position } => {
                &&& slot == i + 1
                &&& slots[i].position == Some(position)
                &&& position == 0 || position > 12
            },
            SlotErrorView::PositionTaken { slot, position } => {
                &&& slot == i + 1
                &&& slots[i].position == Some(position)
                &&& 1 <= position <= 12
                &&& exists|j: int| 0 <= j < i && (#[trigger] slots[j]).position == Some(position)
            },
            SlotErrorView::SeveralWords { slot, position, alt } => {
                &&& slot == i + 1
                &&& slots[i].position == Some(position)
                &&& 1 <= position <= 12
                &&& forall|j: int| 0 <= j < i ==> (#[trigger] slots[j]).position != Some(position)
                &&& 1 <= alt <= slots[i].alts.len()
                &&& slots[i].alts[alt - 1].len() != 1
                &&& forall|a: int| 0 <= a < alt - 1 ==> (#[trigger] slots[i].alts[a]).len() == 1
            },
            SlotErrorView::OrderConflict { slot, position } => {
                &&& slot == i + 1
                &&& slots[i].position == Some(position)
                &&& 1 <= position <= 12
                &&& forall|j: int| 0 <= j < i ==> (#[trigger] slots[j]).position != Some(position)
                &&& forall|a: int|
                    0 <= a < slots[i].alts.len() ==> (#[trigger] slots[i].alts[a]).len() == 1
                &&& keep_token_order
                &&& position != slot
            },
        },
        !(slots_error(slots, list, keep_token_order)->0 is UnknownWord) ==> forall|a: int, t: int|
            0 <= a < slots[i].alts.len() && 0 <= t < slots[i].alts[a].len() ==> (word_of(
                #[trigger] slots[i].alts[a][t],
            ) matches Some(w) ==> list.contains(w)),
{
    let i = lemma_first_error_at(slots, slots.len() as int, list, keep_token_order);
    let alts = slots[i].alts;
    lemma_first_error_take(slots, i, i, list, keep_token_order);
    lemma_unknown_in(alts, list);
    lemma_not_single(alts);
    if unknown_in(alts, list) is Some {
        lemma_unknown_in_at(alts, list);
        let a = (unknown_in(alts, list)->0).0;
        let t = lemma_unknown_word_at(alts[a], list);
        assert(word_of(slots[i].alts[a][t]) == unknown_word(alts[a], list));
        assert forall|b: int, u: int| 0 <= b < a && 0 <= u < slots[i].alts[b].len() implies (
        word_of(#[trigger] slots[i].alts[b][u]) matches Some(w) ==> list.contains(w)) by {
            lemma_unknown_word(alts[b], list);
            assert(word_of(alts[b][u]) == word_of(slots[i].alts[b][u]));
        }
    } else {
        assert forall|a: int, t: int|
            0 <= a < slots[i].alts.len() && 0 <= t < slots[i].alts[a].len() implies (word_of(
            #[trigger] slots[i].alts[a][t],
        ) matches Some(w) ==> list.contains(w)) by {
            assert(words_known(alts[a], list));
            assert(word_of(alts[a][t]) == word_of(slots[i].alts[a][t]));
        }
        if not_single(alts) is Some {
            lemma_not_single_at(alts);
        }
    }
    i
}

proof fn lemma_first_error_take(
    slots: Seq<SlotView>,
    k: int,
    n: int,
    list: Seq<Seq<char>>,
    keep_token_order: bool,
)
    requires
        0 <= n <= k <= slots.len(),
    ensures
        first_error(slots.take(k), n, list, keep_token_order) == first_error(
            slots,
            n,
            list,
            keep_token_order,
        ),
    decreases n,
{
    if n > 0 {
        lemma_first_error_take(slots, k, n - 1, list, keep_token_order);
        let few = slots.take(k);
        if let Some(p) = slots[n - 1].position {
            if position_taken(slots, n - 1, p) {
                let j = choose|j: int| 0 <= j < n - 1 && #[trigger] slots[j].position == Some(p);
                assert(few[j].position == Some(p));
            }
            if position_taken(few, n - 1, p) {
                let j = choose|j: int| 0 <= j < n - 1 && #[trigger] few[j].position == Some(p);
                assert(slots[j].position == Some(p));
            }
        }
    }
}

/// What an error says is what it holds.
pub proof fn slot_error_says_what_it_holds(e: SlotError)
    ensures
        e@ == match e {
            SlotError::UnknownWord { slot, alt, word } => SlotErrorView::UnknownWord {
                slot: slot as int,
                alt: alt as int,
                word: word@,
            },
            SlotError::PositionOutOfRange { slot, position } => SlotErrorView::PositionOutOfRange {
                slot: slot as int,
                position,
            },
            SlotError::PositionTaken { slot, position } => SlotErrorView::PositionTaken {
                slot: slot as int,
                position,
            },
            SlotError::SeveralWords { slot, position, alt } => SlotErrorView::SeveralWords {
                slot: slot as int,
                position,
                alt: alt as int,
            },
            SlotError::OrderConflict { slot, position } => SlotErrorView::OrderConflict {
                slot: slot as int,
                position,
            },
        },
{
}

/// Slots that are read and accepted can be expanded: each of them stands for something, and those
/// with a position have one in the phrase.
pub proof fn accepted_slots_are_usable(
    slots: Seq<SlotView>,
    list: Seq<Seq<char>>,
    keep_token_order: bool,
    i: int,
)
    requires
        slots_error(slots, list, keep_token_order) is None,
        0 <= i < slots.len(),
        slots[i].alts.len() > 0,
        0 < list.len() <= u16::MAX,
    ensures
        slot_usable(slots[i], list),
        slots[i].position is Some ==> slot_fixed(slots[i]),
{
    accepted_slots(slots, list, keep_token_order);
    assert(slot_in_order(slots, i, list, keep_token_order));
}

////// Selecting

proof fn lemma_slots_with(slots: Seq<SlotView>, positioned: bool)
    requires
        slots.len() <= usize::MAX,
    ensures
        forall|k: int|
            0 <= k < slots_with(slots, positioned).len() ==> (#[trigger] slots_with(
                slots,
                positioned,
            )[k]) < slots.len() && slots[slots_with(slots, positioned)[k] as int].position.is_some()
                == positioned,
        forall|k: int, l: int|
            0 <= k < l < slots_with(slots, positioned).len() ==> #[trigger] slots_with(
                slots,
                positioned,
            )[k] < #[trigger] slots_with(slots, positioned)[l],
        forall|i: int|
            0 <= i < slots.len() && (#[trigger] slots[i]).position.is_some() == positioned
                ==> slots_with(slots, positioned).contains(i as usize),
    decreases slots.len(),
{
    let now = slots_with(slots, positioned);
    if slots.len() > 0 {
        let less = slots.drop_last();
        let was = slots_with(less, positioned);
        lemma_slots_with(less, positioned);
        assert forall|k: int| 0 <= k < now.len() implies (#[trigger] now[k]) < slots.len()
            && slots[now[k] as int].position.is_some() == positioned by {
            if k < was.len() {
                assert(was[k] == now[k]);
                assert(less[was[k] as int] == slots[now[k] as int]);
            }
        }
        assert forall|k: int, l: int| 0 <= k < l < now.len() implies #[trigger] now[k]
            < #[trigger] now[l] by {
            assert(was[k] == now[k]);
            if l < was.len() {
                assert(was[l] == now[l]);
            }
        }
        assert forall|i: int|
            0 <= i < slots.len() && (#[trigger] slots[i]).position.is_some()
                == positioned implies now.contains(i as usize) by {
            if i < less.len() {
                assert(less[i] == slots[i]);
                let k = was.index_of(i as usize);
                assert(now[k] == i as usize);
            } else {
                assert(now[now.len() - 1] == i as usize);
            }
        }
    }
}

/// Every slot is either fixed or free, no slot is both, and each list has them in the order in
/// which they are written. Fixed slots have a position; where the order of the slots is kept all
/// of them are free.
pub proof fn slots_are_parted(slots: Seq<SlotView>, keep_token_order: bool, i: int)
    requires
        slots.len() <= usize::MAX,
        0 <= i < slots.len(),
    ensures
        fixed_slots(slots, keep_token_order).contains(i as usize) <==> !free_slots(
            slots,
            keep_token_order,
        ).contains(i as usize),
        fixed_slots(slots, keep_token_order).contains(i as usize) <==> !keep_token_order
            && slots[i].position is Some,
        forall|k: int|
            0 <= k < fixed_slots(slots, keep_token_order).len() ==> (#[trigger] fixed_slots(
                slots,
                keep_token_order,
            )[k]) < slots.len(),
        forall|k: int|
            0 <= k < free_slots(slots, keep_token_order).len() ==> (#[trigger] free_slots(
                slots,
                keep_token_order,
            )[k]) < slots.len(),
        forall|k: int, l: int|
            0 <= k < l < fixed_slots(slots, keep_token_order).len() ==> #[trigger] fixed_slots(
                slots,
                keep_token_order,
            )[k] < #[trigger] fixed_slots(slots, keep_token_order)[l],
        forall|k: int, l: int|
            0 <= k < l < free_slots(slots, keep_token_order).len() ==> #[trigger] free_slots(
                slots,
                keep_token_order,
            )[k] < #[trigger] free_slots(slots, keep_token_order)[l],
{
    let fixed = fixed_slots(slots, keep_token_order);
    let free = free_slots(slots, keep_token_order);
    lemma_slots_with(slots, true);
    lemma_slots_with(slots, false);
    if keep_token_order {
        assert(free[i] == i as usize);
    } else {
        assert(slots[i].position.is_some() == true || slots[i].position.is_some() == false);
        if fixed.contains(i as usize) {
            let k = fixed.index_of(i as usize);
            assert(slots[fixed[k] as int].position.is_some());
        }
        if free.contains(i as usize) {
            let k = free.index_of(i as usize);
            assert(!slots[free[k] as int].position.is_some());
        }
    }
}

/// No two fixed slots of an accepted tokenlist have the same position, and all positions lie in the
/// phrase.
pub proof fn fixed_positions_are_distinct(
    slots: Seq<SlotView>,
    list: Seq<Seq<char>>,
    keep_token_order: bool,
)
    requires
        slots.len() <= usize::MAX,
        slots_error(slots, list, keep_token_order) is None,
    ensures
        are_positions(positions_of(slots_at(slots, fixed_slots(slots, keep_token_order)))),
{
    let fixed = fixed_slots(slots, keep_token_order);
    let at = positions_of(slots_at(slots, fixed));
    accepted_slots(slots, list, keep_token_order);
    lemma_slots_with(slots, true);
    assert forall|k: int| 0 <= k < at.len() implies #[trigger] at[k] < 12 by {
        assert(slot_in_order(slots, fixed[k] as int, list, keep_token_order));
        assert(slots[fixed[k] as int].position.is_some());
    }
    assert forall|k: int, l: int| 0 <= k < l < at.len() implies #[trigger] at[k]
        != #[trigger] at[l] by {
        assert(fixed[k] < fixed[l]);
        assert(slot_in_order(slots, fixed[k] as int, list, keep_token_order));
        assert(slot_in_order(slots, fixed[l] as int, list, keep_token_order));
        assert(slots[fixed[k] as int].position.is_some());
        assert(slots[fixed[l] as int].position.is_some());
        assert(slots[fixed[k] as int].position != slots[fixed[l] as int].position);
    }
}

/// Every selection of at least `lo` and at most `hi` free slots is tried, in the order in which the
/// slots are written, and no other one.
pub proof fn slot_selections_are_all(free: Seq<usize>, lo: int, hi: int, chosen: Seq<usize>)
    requires
        0 <= lo,
    ensures
        slot_selections(free, lo, hi).contains(chosen) <==> exists|places: Seq<int>|
            lo <= places.len() <= hi && #[trigger] is_selection(
                places,
                0,
                free.len() as int,
                places.len() as int,
            ) && chosen == entries(free, places),
{
    let f = selections_of(free);
    lemma_concat_contains(lo, hi + 1, f, chosen);
    if slot_selections(free, lo, hi).contains(chosen) {
        let k = choose|k: int| lo <= k < hi + 1 && #[trigger] f(k).contains(chosen);
        let all = combinations(0, free.len() as int, k);
        let j = f(k).index_of(chosen);
        let places = all[j];
        assert(all.contains(places));
        lemma_combinations_contains(0, free.len() as int, k, places);
        assert(chosen == entries(free, places));
    }
    if exists|places: Seq<int>|
        lo <= places.len() <= hi && #[trigger] is_selection(
            places,
            0,
            free.len() as int,
            places.len() as int,
        ) && chosen == entries(free, places) {
        let places = choose|places: Seq<int>|
            lo <= places.len() <= hi && #[trigger] is_selection(
                places,
                0,
                free.len() as int,
                places.len() as int,
            ) && chosen == entries(free, places);
        let k = places.len() as int;
        let all = combinations(0, free.len() as int, k);
        lemma_combinations_contains(0, free.len() as int, k, places);
        let j = all.index_of(places);
        assert(f(k)[j] == chosen);
        assert(f(k).contains(chosen));
    }
}

proof fn lemma_full_selection(places: Seq<int>, n: int, i: int)
    requires
        is_selection(places, 0, n, n),
        0 <= i < n,
    ensures
        places[i] == i,
{
    lemma_selection_at_least(places, n, i);
    lemma_selection_at_most(places, n, i);
}

proof fn lemma_selection_at_least(places: Seq<int>, n: int, i: int)
    requires
        is_selection(places, 0, n, n),
        0 <= i < n,
    ensures
        places[i] >= i,
    decreases i,
{
    if i > 0 {
        lemma_selection_at_least(places, n, i - 1);
        assert(places[i - 1] < places[i]);
    }
}

proof fn lemma_selection_at_most(places: Seq<int>, n: int, i: int)
    requires
        is_selection(places, 0, n, n),
        0 <= i < n,
    ensures
        places[i] <= i,
    decreases n - i,
{
    if i < n - 1 {
        lemma_selection_at_most(places, n, i + 1);
        assert(places[i] < places[i + 1]);
    } else {
        assert(places[i] < n);
    }
}

/// When all slots are to be used, they are the only selection.
pub proof fn all_slots_are_used_together(free: Seq<usize>, chosen: Seq<usize>)
    ensures
        slot_selections(free, free.len() as int, free.len() as int).contains(chosen) <==> chosen
            == free,
{
    let n = free.len() as int;
    slot_selections_are_all(free, n, n, chosen);
    let places = crate::enumeration::iota(free.len());
    assert(is_selection(places, 0, n, places.len() as int));
    assert(entries(free, places) =~= free);
    if slot_selections(free, n, n).contains(chosen) {
        let q = choose|q: Seq<int>|
            n <= q.len() <= n && #[trigger] is_selection(q, 0, n, q.len() as int) && chosen
                == entries(free, q);
        assert forall|i: int| 0 <= i < n implies #[trigger] q[i] == i by {
            lemma_full_selection(q, n, i);
        }
        assert(chosen =~= free);
    }
}

} // verus!
