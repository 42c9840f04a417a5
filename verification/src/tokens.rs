//! The tokenlist data model.
use vstd::prelude::*;

verus! {

/// One word of an alternative.
#[derive(Debug, Clone)]
pub enum Token {
    Word(String),
    /// A word in literal double quotes, e.g. `"tornado"`: it keeps its position and is left out
    /// of every permutation.
    PinnedWord(String),
    /// A `?`: an unknown word, tried with every word of the list.
    Missing,
}

/// What a [`Token`] says.
pub enum TokenView {
    Word(Seq<char>),
    PinnedWord(Seq<char>),
    Missing,
}

impl View for Token {
    type V = TokenView;

    open spec fn view(&self) -> TokenView {
        match self {
            Token::Word(w) => TokenView::Word(w@),
            Token::PinnedWord(w) => TokenView::PinnedWord(w@),
            Token::Missing => TokenView::Missing,
        }
    }
}

/// The words, in order, that may fill a slot together.
pub type Alternative = Vec<Token>;

/// The alternatives of a slot.
pub type Slot = Vec<Alternative>;

/// One tokenlist line: its alternatives, and the absolute position (from 1) in the final phrase
/// if the line starts with one, as in `4 fiber`.
#[derive(Debug, Clone)]
pub struct TokenlistSlot {
    pub position: Option<usize>,
    pub alts: Slot,
}

/// What a [`TokenlistSlot`] says.
pub struct SlotView {
    pub position: Option<usize>,
    pub alts: Seq<Seq<TokenView>>,
}

/// What an alternative says.
pub open spec fn alternative_view(alt: Seq<Token>) -> Seq<TokenView> {
    alt.map_values(|t: Token| t@)
}

/// What the alternatives of a slot say.
pub open spec fn alternatives_view(alts: Seq<Alternative>) -> Seq<Seq<TokenView>> {
    alts.map_values(|a: Alternative| alternative_view(a@))
}

impl View for TokenlistSlot {
    type V = SlotView;

    open spec fn view(&self) -> SlotView {
        SlotView { position: self.position, alts: alternatives_view(self.alts@) }
    }
}

/// What a list of slots says.
pub open spec fn slot_views(slots: Seq<TokenlistSlot>) -> Seq<SlotView> {
    slots.map_values(|s: TokenlistSlot| s@)
}

/// The word that a token names, if it names one.
pub open spec fn word_of(t: TokenView) -> Option<Seq<char>> {
    match t {
        TokenView::Word(w) => Some(w),
        TokenView::PinnedWord(w) => Some(w),
        TokenView::Missing => None,
    }
}

/// A text in literal double quotes.
pub open spec fn is_pinned(s: Seq<char>) -> bool {
    s.len() >= 2 && s[0] == '"' && s.last() == '"'
}

/// The text without the double quotes around it, if there are any.
pub open spec fn unpinned(s: Seq<char>) -> Seq<char> {
    if is_pinned(s) {
        s.subrange(1, s.len() - 1)
    } else {
        s
    }
}

/// A word in literal double quotes (`"..."`, at least two characters) is pinned.
pub fn is_pinned_token(s: &str) -> (r: bool)
    ensures
        r == is_pinned(s@),
        r <==> s@.len() >= 2 && s@[0] == '"' && s@[s@.len() - 1] == '"',
{
    let n = s.unicode_len();
    n >= 2 && s.get_char(0) == '"' && s.get_char(n - 1) == '"'
}

/// Takes the double quotes off a pinned word.
pub fn strip_pin(s: &str) -> (r: &str)
    ensures
        r@ == unpinned(s@),
        if s@.len() >= 2 && s@[0] == '"' && s@[s@.len() - 1] == '"' {
            s@ == seq!['"'] + r@ + seq!['"']
        } else {
            r@ == s@
        },
{
    if is_pinned_token(s) {
        let n = s.unicode_len();
        let inner = s.substring_char(1, n - 1);
        assert(s@ =~= seq!['"'] + inner@ + seq!['"']);
        inner
    } else {
        s
    }
}

/// Where `w` stands first in `list`.
pub open spec fn position(list: Seq<Seq<char>>, w: Seq<char>) -> Option<int>
    decreases list.len(),
{
    if list.len() == 0 {
        None
    } else {
        match position(list.drop_last(), w) {
            Some(i) => Some(i),
            None => if list.last() == w {
                Some(list.len() - 1)
            } else {
                None
            },
        }
    }
}

/// `position` finds the first occurrence, and finds one exactly if there is one.
pub proof fn lemma_position(list: Seq<Seq<char>>, w: Seq<char>)
    ensures
        position(list, w) is Some <==> list.contains(w),
        position(list, w) matches Some(i) ==> 0 <= i < list.len() && list[i] == w && forall|j: int|
            0 <= j < i ==> list[j] != w,
    decreases list.len(),
{
    if list.len() > 0 {
        lemma_position(list.drop_last(), w);
        if list.drop_last().contains(w) {
            let i = list.drop_last().index_of(w);
            assert(list[i] == w);
        }
        if list.contains(w) {
            let i = list.index_of(w);
            if i < list.len() - 1 {
                assert(list.drop_last()[i] == w);
            }
        }
        if list.last() == w {
            assert(list[list.len() - 1] == w);
        }
        if let Some(i) = position(list.drop_last(), w) {
            assert forall|j: int| 0 <= j < i implies list[j] != w by {
                assert(list.drop_last()[j] == list[j]);
            }
        }
        if position(list.drop_last(), w) is None {
            assert forall|j: int| 0 <= j < list.len() - 1 implies list[j] != w by {
                assert(list.drop_last()[j] == list[j]);
            }
        }
    }
}

proof fn lemma_position_prefix(list: Seq<Seq<char>>, w: Seq<char>, n: int)
    requires
        0 <= n <= list.len(),
        position(list.take(n), w) is Some,
    ensures
        position(list, w) == position(list.take(n), w),
    decreases list.len() - n,
{
    if n < list.len() {
        assert(list.take(n + 1).drop_last() =~= list.take(n));
        lemma_position_prefix(list, w, n + 1);
    } else {
        assert(list.take(n) =~= list);
    }
}

/// Looks a word up in a word list.
pub fn find_word(list: &[String], w: &String) -> (r: Option<usize>)
    ensures
        r is Some <==> position(crate::text::texts(list@), w@) is Some,
        r matches Some(i) ==> position(crate::text::texts(list@), w@) == Some(i as int),
        match r {
            Some(i) => {
                &&& i < list@.len()
                &&& list@[i as int]@ == w@
                &&& forall|j: int| 0 <= j < i ==> (#[trigger] list@[j])@ != w@
            },
            None => forall|j: int| 0 <= j < list@.len() ==> (#[trigger] list@[j])@ != w@,
        },
{
    let ghost all = crate::text::texts(list@);
    let mut i: usize = 0;
    while i < list.len()
        invariant
            i <= list.len(),
            all == crate::text::texts(list@),
            position(all.take(i as int), w@) is None,
            forall|j: int| 0 <= j < i ==> (#[trigger] list@[j])@ != w@,
        decreases list.len() - i,
    {
        proof {
            assert(all.take(i + 1).drop_last() =~= all.take(i as int));
            assert(all.take(i + 1).last() == list@[i as int]@);
        }
        if list[i] == *w {
            proof {
                lemma_position_prefix(all, w@, i + 1);
            }
            return Some(i);
        }
        i += 1;
    }
    assert(all.take(i as int) =~= all);
    None
}

} // verus!
