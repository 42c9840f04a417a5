//! Tokenlist mode: the phrases of each selection of slots.
use vstd::prelude::*;

use crate::address::keccak256_of;
use crate::coin::Coin;
use crate::hex::hex_text;
use crate::keys::{
    address_of_phrase, check_phrase, child_of, master_of, p2pkh_of, public_of, seed_of,
};
use crate::language::Language;
use crate::laws::slots::{accepted_slots_are_usable, slot_selections_are_all, slots_are_parted};
use crate::listing::is_selection;
use crate::phrases::{slot_fixed, slot_ref_views, slot_usable, space_of, LazyPhraseIter, PhraseSpace};
use crate::plan::{
    entries, fixed_slots, free_slots, least_free, least_slots, most_free, pick_slots, slot_selections, slots_at,
    split_fixed_free, subset_bounds, SlotPlan, SubsetBounds,
};
use crate::text::{joined, texts, words, Separator};
use crate::tokenlist::slots_error;
use crate::tokens::{slot_views, SlotView, TokenlistSlot};
use crate::word_mode::phrase_line;
use crate::word_report::{phrase_text, words_at};

verus! {

/// The slots can be searched: they were checked against the list, and each has an alternative.
pub open spec fn is_searchable(
    slots: Seq<SlotView>,
    list: Seq<Seq<char>>,
    keep_token_order: bool,
) -> bool {
    &&& slots_error(slots, list, keep_token_order) is None
    &&& forall|i: int| 0 <= i < slots.len() ==> (#[trigger] slots[i]).alts.len() > 0
    &&& 0 < list.len() <= u16::MAX
}

/// What is tried for a selection of free slots.
pub open spec fn selection_space(
    slots: Seq<SlotView>,
    chosen: Seq<usize>,
    keep_token_order: bool,
    keep_word_order: bool,
    list: Seq<Seq<char>>,
) -> PhraseSpace {
    space_of(
        slots_at(slots, fixed_slots(slots, keep_token_order)),
        slots_at(slots, chosen),
        keep_token_order,
        keep_word_order,
        list,
    )
}

/// The selections of free slots that are tried.
pub open spec fn selections_tried(
    slots: Seq<SlotView>,
    keep_token_order: bool,
    min_token: Option<usize>,
) -> Seq<Seq<usize>> {
    let fixed = fixed_slots(slots, keep_token_order);
    let free = free_slots(slots, keep_token_order);
    slot_selections(
        free,
        least_free(slots.len() as int, fixed.len() as int, min_token),
        most_free(slots.len() as int, fixed.len() as int, free.len() as int),
    )
}

/// One selection of slots with its phrases.
pub struct Subset {
    /// The indices of the slots, those with a fixed position first.
    pub chosen: Vec<usize>,
    /// The phrases to try.
    pub phrases: LazyPhraseIter,
}

/// Goes through the selections of slots.
pub struct TokenlistSearch<'a> {
    slots: &'a [TokenlistSlot],
    wordlist: &'a [String],
    keep_token_order: bool,
    keep_word_order: bool,
    fixed: Vec<usize>,
    bounds: SubsetBounds,
    plan: SlotPlan,
}

/// The entries of every selection number a slot.
spec fn select_slots(selections: Seq<Seq<usize>>, n: int) -> bool {
    forall|k: int, i: int|
        0 <= k < selections.len() && 0 <= i < selections[k].len() ==> (
        #[trigger] selections[k][i]) < n
}

impl<'a> TokenlistSearch<'a> {
    /// The state is consistent.
    pub closed spec fn wf(&self) -> bool {
        &&& is_searchable(slot_views(self.slots@), texts(self.wordlist@), self.keep_token_order)
        &&& self.fixed@ == fixed_slots(slot_views(self.slots@), self.keep_token_order)
        &&& self.plan.wf()
        &&& select_slots(self.plan.remaining(), self.slots@.len() as int)
        &&& forall|k: int|
            0 <= k < self.plan.remaining().len() ==> self.fixed@.len() + (
            #[trigger] self.plan.remaining()[k]).len() <= usize::MAX
    }

    /// The selections of free slots that are still to come, first one first.
    pub closed spec fn remaining(&self) -> Seq<Seq<usize>> {
        self.plan.remaining()
    }

    /// What is tried for a selection of free slots.
    pub closed spec fn space(&self, chosen: Seq<usize>) -> PhraseSpace {
        selection_space(
            slot_views(self.slots@),
            chosen,
            self.keep_token_order,
            self.keep_word_order,
            texts(self.wordlist@),
        )
    }

    /// The indices of the slots with a fixed position.
    pub closed spec fn fixed(&self) -> Seq<usize> {
        self.fixed@
    }

    /// How many slots are used.
    pub closed spec fn bounds_used(&self) -> SubsetBounds {
        self.bounds
    }

    /// Starts the search.
    pub fn new(
        slots: &'a [TokenlistSlot],
        min_token: Option<usize>,
        keep_token_order: bool,
        keep_word_order: bool,
        wordlist: &'a [String],
    ) -> (r: Self)
        requires
            is_searchable(slot_views(slots@), texts(wordlist@), keep_token_order),
            slots@.len() < usize::MAX,
        ensures
            r.wf(),
            r.fixed() == fixed_slots(slot_views(slots@), keep_token_order),
            r.remaining() == selections_tried(slot_views(slots@), keep_token_order, min_token),
            r.bounds_used().min_token == least_slots(slots@.len() as int, min_token),
            r.bounds_used().max_token == slots@.len(),
            r.bounds_used().min_free == least_free(
                slots@.len() as int,
                r.fixed().len() as int,
                min_token,
            ),
            r.bounds_used().max_free == most_free(
                slots@.len() as int,
                r.fixed().len() as int,
                free_slots(slot_views(slots@), keep_token_order).len() as int,
            ),
            r.bounds_used().min_token == match min_token {
                Some(m) => if m <= slots@.len() {
                    m as int
                } else {
                    slots@.len() as int
                },
                None => slots@.len() as int,
            },
            r.bounds_used().min_free == if r.bounds_used().min_token >= r.fixed().len() {
                r.bounds_used().min_token - r.fixed().len()
            } else {
                0
            },
            r.bounds_used().max_free + r.fixed().len() == slots@.len(),
            forall|i: int|
                0 <= i < slots@.len() ==> (r.fixed().contains(i as usize) <==> !keep_token_order && (
                #[trigger] slots@[i]).position is Some),
            forall|chosen: Seq<usize>| #[trigger]
                r.space(chosen) == selection_space(
                    slot_views(slots@),
                    chosen,
                    keep_token_order,
                    keep_word_order,
                    texts(wordlist@),
                ),
    {
        let ghost views = slot_views(slots@);
        let (fixed, free) = split_fixed_free(slots, keep_token_order);
        let bounds = subset_bounds(slots.len(), fixed.len(), free.len(), min_token);
        proof {
            lemma_parts_len(views, keep_token_order);
        }
        let plan = SlotPlan::new(&free, bounds.min_free, bounds.max_free);
        proof {
            lemma_selections(views, keep_token_order, min_token);
        }
        TokenlistSearch { slots, wordlist, keep_token_order, keep_word_order, fixed, bounds, plan }
    }

    /// How many slots are used at least and at most.
    pub fn bounds(&self) -> (r: SubsetBounds)
        ensures
            r == self.bounds_used(),
    {
        self.bounds
    }

    /// How many slots have a fixed position.
    pub fn fixed_count(&self) -> (r: usize)
        ensures
            r == self.fixed().len(),
    {
        self.fixed.len()
    }

    /// The next selection of slots, with the phrases to try for it.
    pub fn next_subset(&mut self) -> (r: Option<Subset>)
        requires
            old(self).wf(),
        ensures
            final(self).wf(),
            final(self).fixed() == old(self).fixed(),
            final(self).bounds_used() == old(self).bounds_used(),
            forall|chosen: Seq<usize>| #[trigger]
                final(self).space(chosen) == old(self).space(chosen),
            match r {
                Some(subset) => {
                    &&& old(self).remaining().len() > 0
                    &&& subset.chosen@ == old(self).fixed() + old(self).remaining()[0]
                    &&& subset.phrases.wf()
                    &&& subset.phrases.space() == old(self).space(old(self).remaining()[0])
                    &&& subset.phrases.remaining() == subset.phrases.space().phrases()
                    &&& final(self).remaining() == old(self).remaining().drop_first()
                },
                None => {
                    &&& old(self).remaining().len() == 0
                    &&& final(self).remaining().len() == 0
                },
            },
    {
        let ghost todo = self.plan.remaining();
        let ghost views = slot_views(self.slots@);
        let ghost list = texts(self.wordlist@);
        let free_chosen = match self.plan.next() {
            Some(v) => v,
            None => {
                return None;
            },
        };
        proof {
            assert(todo[0] == free_chosen@);
            assert forall|i: int| 0 <= i < free_chosen@.len() implies (#[trigger] free_chosen@[i])
                < self.slots@.len() by {
                assert(todo[0][i] < self.slots@.len());
            }
            assert(views.len() == self.slots.len());
            lemma_fixed_in_range(views, self.keep_token_order);
        }
        let fixed_refs = pick_slots(self.slots, &self.fixed);
        let free_refs = pick_slots(self.slots, &free_chosen);
        proof {
            assert forall|i: int| 0 <= i < fixed_refs@.len() implies slot_fixed(
                (#[trigger] fixed_refs@[i])@,
            ) && slot_usable(fixed_refs@[i]@, list) by {
                assert(slot_ref_views(fixed_refs@)[i] == fixed_refs@[i]@);
                accepted_slots_are_usable(
                    views,
                    list,
                    self.keep_token_order,
                    self.fixed@[i] as int,
                );
            }
            assert forall|i: int| 0 <= i < free_refs@.len() implies slot_usable(
                (#[trigger] free_refs@[i])@,
                list,
            ) by {
                assert(slot_ref_views(free_refs@)[i] == free_refs@[i]@);
                accepted_slots_are_usable(
                    views,
                    list,
                    self.keep_token_order,
                    free_chosen@[i] as int,
                );
            }
        }
        let phrases = LazyPhraseIter::new(
            &fixed_refs,
            &free_refs,
            self.keep_token_order,
            self.keep_word_order,
            self.wordlist,
        );
        let mut chosen: Vec<usize> = Vec::new();
        chosen.extend_from_slice(&self.fixed);
        chosen.extend_from_slice(&free_chosen);
        proof {
            assert(chosen@ =~= self.fixed@ + free_chosen@);
            let now = self.plan.remaining();
            assert forall|k: int, i: int| 0 <= k < now.len() && 0 <= i < now[k].len() implies (
            #[trigger] now[k][i]) < self.slots@.len() by {
                assert(now[k] == todo[k + 1]);
                assert(todo[k + 1][i] < self.slots@.len());
            }
            assert forall|k: int| 0 <= k < now.len() implies self.fixed@.len() + (
            #[trigger] now[k]).len() <= usize::MAX by {
                assert(now[k] == todo[k + 1]);
            }
        }
        Some(Subset { chosen, phrases })
    }
}

proof fn lemma_fixed_in_range(slots: Seq<SlotView>, keep_token_order: bool)
    requires
        slots.len() <= usize::MAX,
    ensures
        forall|k: int|
            0 <= k < fixed_slots(slots, keep_token_order).len() ==> (#[trigger] fixed_slots(
                slots,
                keep_token_order,
            )[k]) < slots.len() && slots[fixed_slots(slots, keep_token_order)[k] as int].position
                is Some,
{
    let fixed = fixed_slots(slots, keep_token_order);
    if slots.len() > 0 {
        slots_are_parted(slots, keep_token_order, 0);
        assert forall|k: int| 0 <= k < fixed.len() implies (#[trigger] fixed[k]) < slots.len()
            && slots[fixed[k] as int].position is Some by {
            slots_are_parted(slots, keep_token_order, fixed[k] as int);
            assert(fixed.contains(fixed[k]));
        }
    }
}

/// No slot is lost when they are parted.
pub proof fn lemma_parts_len(slots: Seq<SlotView>, keep_token_order: bool)
    ensures
        fixed_slots(slots, keep_token_order).len() + free_slots(slots, keep_token_order).len()
            == slots.len(),
    decreases slots.len(),
{
    if slots.len() > 0 {
        lemma_parts_len(slots.drop_last(), keep_token_order);
    }
}

proof fn lemma_selections(slots: Seq<SlotView>, keep_token_order: bool, min_token: Option<usize>)
    requires
        slots.len() <= usize::MAX,
    ensures
        select_slots(selections_tried(slots, keep_token_order, min_token), slots.len() as int),
        forall|k: int|
            0 <= k < selections_tried(slots, keep_token_order, min_token).len() ==> fixed_slots(
                slots,
                keep_token_order,
            ).len() + (#[trigger] selections_tried(slots, keep_token_order, min_token)[k]).len()
                <= usize::MAX,
{
    let fixed = fixed_slots(slots, keep_token_order);
    let free = free_slots(slots, keep_token_order);
    let all = selections_tried(slots, keep_token_order, min_token);
    let n = slots.len() as int;
    let lo = least_free(n, fixed.len() as int, min_token);
    let hi = most_free(n, fixed.len() as int, free.len() as int);
    lemma_parts_len(slots, keep_token_order);
    assert forall|k: int, i: int| 0 <= k < all.len() && 0 <= i < all[k].len() implies (
    #[trigger] all[k][i]) < n by {
        assert(all.contains(all[k]));
        slot_selections_are_all(free, lo, hi, all[k]);
        let places = choose|places: Seq<int>|
            lo <= places.len() <= hi && #[trigger] is_selection(
                places,
                0,
                free.len() as int,
                places.len() as int,
            ) && all[k] == entries(free, places);
        assert(0 <= places[i] < free.len());
        slots_are_parted(slots, keep_token_order, 0);
        assert(free[places[i]] < n);
    }
    assert forall|k: int| 0 <= k < all.len() implies fixed.len() + (#[trigger] all[k]).len()
        <= usize::MAX by {
        assert(all.contains(all[k]));
        slot_selections_are_all(free, lo, hi, all[k]);
    }
}

/// Checks one phrase, given by its word numbers, and writes it out if it leads to the address that
/// is searched for.
pub fn check_codes(
    wordlist: &[String],
    codes: &[u16],
    language: Language,
    path: &[u32],
    coin: Coin,
    target: &String,
) -> (r: Option<String>)
    requires
        forall|i: int| 0 <= i < codes@.len() ==> #[trigger] codes@[i] < wordlist@.len(),
    ensures
        ({
            let line = phrase_line(words_at(texts(wordlist@), codes@));
            match r {
                Some(phrase) => {
                    &&& phrase@ == line
                    &&& address_of_phrase(language, line, path@, coin) == Some(target@)
                },
                None => address_of_phrase(language, line, path@, coin) != Some(target@),
            }
        }),
        ({
            let line = joined(
                Seq::new(codes@.len(), |i: int| wordlist@[codes@[i] as int]@),
                " "@,
            );
            &&& r matches Some(phrase) ==> phrase@ == line
            &&& r is Some <==> {
                &&& seed_of(language, line, ""@) matches Some(seed)
                &&& master_of(seed) matches Some(master)
                &&& child_of(master, path@) matches Some(secret)
                &&& public_of(secret) matches Some(key)
                &&& match coin {
                    Coin::Btc => p2pkh_of(key) == Some(target@),
                    Coin::Eth => target@ == "0x"@ + hex_text(keccak256_of(key.skip(1)).skip(12)),
                }
            }
        }),
        (forall|w: int, j: int|
            0 <= w < wordlist@.len() && 0 <= j < wordlist@[w]@.len()
                ==> !Separator::Whitespace.splits(#[trigger] wordlist@[w]@[j])) && (forall|w: int|
            0 <= w < wordlist@.len() ==> (#[trigger] wordlist@[w])@.len() > 0) ==> (r matches Some(
            phrase,
        ) ==> {
            &&& words(phrase@).len() == codes@.len()
            &&& forall|i: int|
                0 <= i < codes@.len() ==> #[trigger] words(phrase@)[i]
                    == wordlist@[codes@[i] as int]@
        }),
{
    let phrase = phrase_text(wordlist, codes);
    if check_phrase(language, phrase.as_str(), path, coin, target) {
        Some(phrase)
    } else {
        None
    }
}

} // verus!
