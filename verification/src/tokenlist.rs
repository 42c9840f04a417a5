//! Reading a tokenlist and checking it against a word list.
//!
//! One line is one slot. Blank lines and lines that start with `#` are left out. Whitespace
//! separates the alternatives of a slot, commas separate the words of an alternative. `?` is an
//! unknown word, a word in double quotes is pinned. A line may start with a number: the position
//! of its word in the phrase.
use vstd::prelude::*;

use std::collections::HashSet;

use crate::language::{language_words, word_list, Language};
use crate::laws::reading::alternatives_are_the_parts;
use crate::laws::slots::slots_are_accepted;
use crate::text::{
    chars_of, decimal, decimal_string, nonempty, parse_number, parsed_number, pieces, rows,
    split_at, split_nonempty, string_of, texts, words, Separator,
};
use crate::tokens::{
    alternative_view, alternatives_view, find_word, is_pinned, is_pinned_token, lemma_position,
    slot_views, strip_pin, unpinned, word_of, Alternative, Slot, SlotView, Token, TokenView,
    TokenlistSlot,
};

verus! {

////// Reading

/// What a word of an alternative stands for.
pub open spec fn token_of(t: Seq<char>) -> TokenView {
    if t == seq!['?'] {
        TokenView::Missing
    } else if is_pinned(t) {
        TokenView::PinnedWord(unpinned(t))
    } else {
        TokenView::Word(t)
    }
}

/// The tokens of an alternative.
pub open spec fn tokens_of(alt: Seq<char>) -> Seq<TokenView> {
    nonempty(pieces(alt, Separator::Comma)).map_values(|t: Seq<char>| token_of(t))
}

/// The alternatives that the words of a line stand for.
pub open spec fn alternatives_of(parts: Seq<Seq<char>>) -> Seq<Seq<TokenView>> {
    nonempty(parts.map_values(|p: Seq<char>| tokens_of(p)))
}

/// What a line of a tokenlist says.
pub enum LineView {
    /// Blank, or a comment.
    Ignored,
    /// A position with nothing behind it.
    NoWord,
    /// Nothing but commas.
    NothingLeft,
    Slot(SlotView),
}

/// Reads a line.
pub open spec fn line_view(line: Seq<char>) -> LineView {
    let parts = words(line);
    if parts.len() == 0 || parts[0][0] == '#' {
        LineView::Ignored
    } else {
        let position = parsed_number(parts[0]);
        let rest = if position is Some {
            parts.drop_first()
        } else {
            parts
        };
        if rest.len() == 0 {
            LineView::NoWord
        } else if alternatives_of(rest).len() == 0 {
            LineView::NothingLeft
        } else {
            LineView::Slot(SlotView { position, alts: alternatives_of(rest) })
        }
    }
}

/// What the lines of a tokenlist say.
pub open spec fn line_views(content: Seq<char>) -> Seq<LineView> {
    pieces(content, Separator::Newline).map_values(|l: Seq<char>| line_view(l))
}

/// The slots among these lines.
pub open spec fn slots_in(lines: Seq<LineView>) -> Seq<SlotView>
    decreases lines.len(),
{
    if lines.len() == 0 {
        Seq::empty()
    } else {
        match lines.last() {
            LineView::Slot(s) => slots_in(lines.drop_last()).push(s),
            _ => slots_in(lines.drop_last()),
        }
    }
}

/// The numbers (from 1) of the lines that hold nothing but commas.
pub open spec fn empty_lines(lines: Seq<LineView>) -> Seq<int>
    decreases lines.len(),
{
    if lines.len() == 0 {
        Seq::empty()
    } else {
        match lines.last() {
            LineView::NothingLeft => empty_lines(lines.drop_last()).push(lines.len() as int),
            _ => empty_lines(lines.drop_last()),
        }
    }
}

/// The index of the first line with a position but no word.
pub open spec fn first_no_word(lines: Seq<LineView>) -> Option<int>
    decreases lines.len(),
{
    if lines.len() == 0 {
        None
    } else {
        match first_no_word(lines.drop_last()) {
            Some(i) => Some(i),
            None => if lines.last() is NoWord {
                Some(lines.len() - 1)
            } else {
                None
            },
        }
    }
}

/// Why a tokenlist cannot be used.
#[derive(Debug, Clone, Copy, PartialEq, Eq, Structural)]
pub enum TokenlistError {
    /// The line with this number (from 1) has a position but no word behind it.
    PositionWithoutWord { line: usize },
    /// No line gives a slot.
    NoSlots,
}

/// What reading a tokenlist gives: its slots, or why it cannot be used.
pub open spec fn tokenlist_slots(content: Seq<char>) -> Result<Seq<SlotView>, TokenlistError> {
    let lines = line_views(content);
    match first_no_word(lines) {
        Some(i) => Err(TokenlistError::PositionWithoutWord { line: (i + 1) as usize }),
        None => if slots_in(lines).len() == 0 {
            Err(TokenlistError::NoSlots)
        } else {
            Ok(slots_in(lines))
        },
    }
}

/// The lines to warn about: those with nothing but commas, up to the line that ends the reading.
pub open spec fn tokenlist_warnings(content: Seq<char>) -> Seq<int> {
    let lines = line_views(content);
    match first_no_word(lines) {
        Some(i) => empty_lines(lines.take(i)),
        None => empty_lines(lines),
    }
}

/// What is left is not empty.
pub proof fn lemma_nonempty<T>(s: Seq<Seq<T>>)
    ensures
        forall|i: int| 0 <= i < nonempty(s).len() ==> (#[trigger] nonempty(s)[i]).len() > 0,
    decreases s.len(),
{
    if s.len() > 0 {
        let init = nonempty(s.drop_last());
        lemma_nonempty(s.drop_last());
        assert forall|i: int| 0 <= i < nonempty(s).len() implies (#[trigger] nonempty(s)[i]).len()
            > 0 by {
            if i < init.len() {
                assert(nonempty(s)[i] == init[i]);
            }
        }
    }
}

fn read_token(t: &Vec<char>) -> (r: Token)
    ensures
        r@ == token_of(t@),
{
    if t.len() == 1 && t[0] == '?' {
        assert(t@ =~= seq!['?']);
        return Token::Missing;
    }
    let text = string_of(t);
    if is_pinned_token(&text) {
        Token::PinnedWord(strip_pin(&text).to_owned())
    } else {
        Token::Word(text)
    }
}

fn read_alternative(alt: &Vec<char>) -> (r: Alternative)
    ensures
        alternative_view(r@) == tokens_of(alt@),
{
    let parts = split_nonempty(alt, Separator::Comma);
    let ghost all = nonempty(pieces(alt@, Separator::Comma));
    let mut out: Alternative = Vec::new();
    let mut i: usize = 0;
    while i < parts.len()
        invariant
            i <= parts.len(),
            rows(parts@) == all,
            out@.len() == i,
            forall|k: int| 0 <= k < i ==> (#[trigger] out@[k])@ == token_of(all[k]),
        decreases parts.len() - i,
    {
        assert(all[i as int] == parts@[i as int]@);
        out.push(read_token(&parts[i]));
        i += 1;
    }
    assert(alternative_view(out@) =~= tokens_of(alt@));
    out
}

fn read_alternatives(parts: &Vec<Vec<char>>, from: usize) -> (r: Slot)
    requires
        from <= parts@.len(),
    ensures
        alternatives_view(r@) == alternatives_of(rows(parts@).skip(from as int)),
        alternatives_view(r@) == rows(parts@).skip(from as int).map_values(
            |p: Seq<char>| tokens_of(p),
        ).filter(|a: Seq<TokenView>| a.len() > 0),
{
    let ghost all = rows(parts@).skip(from as int);
    let ghost tokens = all.map_values(|p: Seq<char>| tokens_of(p));
    let mut out: Slot = Vec::new();
    let mut i: usize = from;
    assert(tokens.take(0) =~= Seq::empty());
    assert(alternatives_view(out@) =~= Seq::empty());
    while i < parts.len()
        invariant
            from <= i <= parts.len(),
            all == rows(parts@).skip(from as int),
            tokens == all.map_values(|p: Seq<char>| tokens_of(p)),
            alternatives_view(out@) == nonempty(tokens.take(i - from)),
        decreases parts.len() - i,
    {
        let alt = read_alternative(&parts[i]);
        let ghost before = alternatives_view(out@);
        i += 1;
        proof {
            assert(tokens.take(i - from).drop_last() =~= tokens.take(i - 1 - from));
            assert(all[i - 1 - from] == parts@[i - 1]@);
            assert(tokens.take(i - from).last() == alternative_view(alt@));
        }
        if alt.len() > 0 {
            out.push(alt);
            assert(alternatives_view(out@) =~= before.push(alternative_view(alt@)));
        }
    }
    proof {
        assert(tokens.take(i - from) =~= tokens);
        alternatives_are_the_parts(all);
    }
    out
}

/// A line that has been read.
enum Line {
    Ignored,
    NoWord,
    NothingLeft,
    Slot(TokenlistSlot),
}

impl View for Line {
    type V = LineView;

    closed spec fn view(&self) -> LineView {
        match self {
            Line::Ignored => LineView::Ignored,
            Line::NoWord => LineView::NoWord,
            Line::NothingLeft => LineView::NothingLeft,
            Line::Slot(s) => LineView::Slot(s@),
        }
    }
}

fn read_line(line: &Vec<char>) -> (r: Line)
    ensures
        r@ == line_view(line@),
{
    let parts = split_nonempty(line, Separator::Whitespace);
    let ghost all = words(line@);
    proof {
        lemma_nonempty(pieces(line@, Separator::Whitespace));
        assert(rows(parts@) == all);
    }
    if parts.len() == 0 {
        return Line::Ignored;
    }
    assert(all[0] == parts@[0]@);
    if parts[0][0] == '#' {
        return Line::Ignored;
    }
    let position = parse_number(&parts[0]);
    let from: usize = if position.is_some() {
        1
    } else {
        0
    };
    proof {
        assert(all.skip(0) =~= all);
        assert(all.skip(1) =~= all.drop_first());
    }
    if from >= parts.len() {
        return Line::NoWord;
    }
    let alts = read_alternatives(&parts, from);
    assert(alternatives_view(alts@).len() == alts@.len());
    if alts.len() == 0 {
        return Line::NothingLeft;
    }
    Line::Slot(TokenlistSlot { position, alts })
}

/// Line numbers as mathematical integers.
pub open spec fn line_numbers(s: Seq<usize>) -> Seq<int> {
    s.map_values(|n: usize| n as int)
}

proof fn lemma_first_no_word(lines: Seq<LineView>, n: int)
    requires
        0 <= n <= lines.len(),
        first_no_word(lines.take(n)) is Some,
    ensures
        first_no_word(lines) == first_no_word(lines.take(n)),
    decreases lines.len() - n,
{
    if n < lines.len() {
        assert(lines.take(n + 1).drop_last() =~= lines.take(n));
        lemma_first_no_word(lines, n + 1);
    } else {
        assert(lines.take(n) =~= lines);
    }
}

/// Reads a tokenlist. The first result holds the numbers of the lines to warn about.
pub fn parse_tokenlist(content: &str) -> (r: (Vec<usize>, Result<Vec<TokenlistSlot>, TokenlistError>))
    ensures
        line_numbers(r.0@) == tokenlist_warnings(content@),
        match r.1 {
            Ok(slots) => tokenlist_slots(content@) == Ok::<Seq<SlotView>, TokenlistError>(
                slot_views(slots@),
            ),
            Err(e) => tokenlist_slots(content@) == Err::<Seq<SlotView>, TokenlistError>(e),
        },
        r.0@.len() == tokenlist_warnings(content@).len(),
        forall|k: int| 0 <= k < r.0@.len() ==> #[trigger] r.0@[k] == tokenlist_warnings(content@)[k],
        r.1 matches Ok(slots) ==> slots@.len() == tokenlist_slots(content@)->Ok_0.len(),
        r.1 matches Ok(slots) ==> forall|i: int|
            0 <= i < slots@.len() ==> (#[trigger] slots@[i]).position == tokenlist_slots(
                content@,
            )->Ok_0[i].position && slots@[i]@.alts == tokenlist_slots(content@)->Ok_0[i].alts,
{
    let chars = chars_of(content);
    let parts = split_at(&chars, Separator::Newline);
    let ghost lines = line_views(content@);
    let mut warnings: Vec<usize> = Vec::new();
    let mut slots: Vec<TokenlistSlot> = Vec::new();
    let mut i: usize = 0;
    proof {
        assert(rows(parts@) == pieces(content@, Separator::Newline));
        assert(lines.take(0) =~= Seq::empty());
        assert(line_numbers(warnings@) =~= Seq::empty());
        assert(slot_views(slots@) =~= Seq::empty());
    }
    while i < parts.len()
        invariant
            i <= parts.len(),
            rows(parts@) == pieces(content@, Separator::Newline),
            lines == line_views(content@),
            first_no_word(lines.take(i as int)) is None,
            line_numbers(warnings@) == empty_lines(lines.take(i as int)),
            slot_views(slots@) == slots_in(lines.take(i as int)),
        decreases parts.len() - i,
    {
        let line = read_line(&parts[i]);
        let ghost warned = line_numbers(warnings@);
        let ghost got = slot_views(slots@);
        proof {
            assert(rows(parts@)[i as int] == parts@[i as int]@);
            assert(lines.take(i + 1).drop_last() =~= lines.take(i as int));
            assert(lines.take(i + 1).last() == line@);
        }
        match line {
            Line::Ignored => {},
            Line::NoWord => {
                proof {
                    lemma_first_no_word(lines, i + 1);
                    assert(line_numbers(warnings@).len() == warnings@.len());
                    assert forall|k: int| 0 <= k < warnings@.len() implies #[trigger] warnings@[k]
                        == tokenlist_warnings(content@)[k] by {
                        assert(line_numbers(warnings@)[k] == warnings@[k]);
                    }
                }
                return (warnings, Err(TokenlistError::PositionWithoutWord { line: i + 1 }));
            },
            Line::NothingLeft => {
                warnings.push(i + 1);
                assert(line_numbers(warnings@) =~= warned.push(i + 1));
            },
            Line::Slot(slot) => {
                slots.push(slot);
                assert(slot_views(slots@) =~= got.push(slot@));
            },
        }
        i += 1;
    }
    proof {
        assert(lines.take(i as int) =~= lines);
        assert(slot_views(slots@).len() == slots@.len());
        assert(line_numbers(warnings@).len() == warnings@.len());
        assert forall|k: int| 0 <= k < warnings@.len() implies #[trigger] warnings@[k]
            == tokenlist_warnings(content@)[k] by {
            assert(line_numbers(warnings@)[k] == warnings@[k]);
        }
        assert forall|k: int| 0 <= k < slots@.len() implies (#[trigger] slots@[k]).position
            == slots_in(lines)[k].position && slots@[k]@.alts == slots_in(lines)[k].alts by {
            assert(slot_views(slots@)[k] == slots@[k]@);
        }
    }
    if slots.len() == 0 {
        return (warnings, Err(TokenlistError::NoSlots));
    }
    (warnings, Ok(slots))
}


/// The number of slots that carry a position.
pub open spec fn positioned(slots: Seq<SlotView>) -> int
    decreases slots.len(),
{
    if slots.len() == 0 {
        0
    } else {
        positioned(slots.drop_last()) + if slots.last().position is Some {
            1int
        } else {
            0
        }
    }
}

/// Counts the slots that carry a position.
pub fn positioned_count(slots: &[TokenlistSlot]) -> (r: usize)
    ensures
        r == positioned(slot_views(slots@)),
        r == slots@.filter(|s: TokenlistSlot| s.position is Some).len(),
{
    let ghost all = slot_views(slots@);
    let mut n: usize = 0;
    let mut i: usize = 0;
    proof {
        reveal(Seq::filter);
        assert(slots@.take(0) =~= Seq::empty());
    }
    while i < slots.len()
        invariant
            i <= slots.len(),
            n <= i,
            all == slot_views(slots@),
            n == positioned(all.take(i as int)),
            n == slots@.take(i as int).filter(|s: TokenlistSlot| s.position is Some).len(),
        decreases slots.len() - i,
    {
        proof {
            assert(all.take(i + 1).drop_last() =~= all.take(i as int));
            assert(all.take(i + 1).last() == slots@[i as int]@);
            reveal(Seq::filter);
            assert(slots@.take(i + 1).drop_last() =~= slots@.take(i as int));
            assert(slots@.take(i + 1).last() == slots@[i as int]);
        }
        if slots[i].position.is_some() {
            n += 1;
        }
        i += 1;
    }
    assert(all.take(i as int) =~= all);
    assert(slots@.take(i as int) =~= slots@);
    n
}

////// Checking

/// Why the slots of a tokenlist cannot be used. Slots and alternatives are counted from 1.
#[derive(Debug)]
pub enum SlotError {
    UnknownWord { slot: usize, alt: usize, word: String },
    PositionOutOfRange { slot: usize, position: usize },
    PositionTaken { slot: usize, position: usize },
    SeveralWords { slot: usize, position: usize, alt: usize },
    OrderConflict { slot: usize, position: usize },
}

/// What a [`SlotError`] says.
pub enum SlotErrorView {
    UnknownWord { slot: int, alt: int, word: Seq<char> },
    PositionOutOfRange { slot: int, position: usize },
    PositionTaken { slot: int, position: usize },
    SeveralWords { slot: int, position: usize, alt: int },
    OrderConflict { slot: int, position: usize },
}

impl View for SlotError {
    type V = SlotErrorView;

    open spec fn view(&self) -> SlotErrorView {
        match self {
            SlotError::UnknownWord { slot, alt, word } => SlotErrorView::UnknownWord {
                slot: *slot as int,
                alt: *alt as int,
                word: word@,
            },
            SlotError::PositionOutOfRange { slot, position } => SlotErrorView::PositionOutOfRange {
                slot: *slot as int,
                position: *position,
            },
            SlotError::PositionTaken { slot, position } => SlotErrorView::PositionTaken {
                slot: *slot as int,
                position: *position,
            },
            SlotError::SeveralWords { slot, position, alt } => SlotErrorView::SeveralWords {
                slot: *slot as int,
                position: *position,
                alt: *alt as int,
            },
            SlotError::OrderConflict { slot, position } => SlotErrorView::OrderConflict {
                slot: *slot as int,
                position: *position,
            },
        }
    }
}

/// The first word of an alternative that is not in the list.
pub open spec fn unknown_word(alt: Seq<TokenView>, list: Seq<Seq<char>>) -> Option<Seq<char>>
    decreases alt.len(),
{
    if alt.len() == 0 {
        None
    } else {
        match unknown_word(alt.drop_last(), list) {
            Some(w) => Some(w),
            None => match word_of(alt.last()) {
                Some(w) if !list.contains(w) => Some(w),
                _ => None,
            },
        }
    }
}

/// The first alternative with a word that is not in the list, and that word.
pub open spec fn unknown_in(alts: Seq<Seq<TokenView>>, list: Seq<Seq<char>>) -> Option<
    (int, Seq<char>),
>
    decreases alts.len(),
{
    if alts.len() == 0 {
        None
    } else {
        match unknown_in(alts.drop_last(), list) {
            Some(e) => Some(e),
            None => match unknown_word(alts.last(), list) {
                Some(w) => Some((alts.len() - 1, w)),
                None => None,
            },
        }
    }
}

/// The first alternative that is not exactly one word.
pub open spec fn not_single(alts: Seq<Seq<TokenView>>) -> Option<int>
    decreases alts.len(),
{
    if alts.len() == 0 {
        None
    } else {
        match not_single(alts.drop_last()) {
            Some(a) => Some(a),
            None => if alts.last().len() != 1 {
                Some(alts.len() - 1)
            } else {
                None
            },
        }
    }
}

/// Some slot before the `si`-th has this position.
pub open spec fn position_taken(slots: Seq<SlotView>, si: int, position: usize) -> bool {
    exists|j: int| 0 <= j < si && #[trigger] slots[j].position == Some(position)
}

/// What is wrong with the `si`-th slot, if the slots before it are in order.
pub open spec fn slot_error(
    slots: Seq<SlotView>,
    si: int,
    list: Seq<Seq<char>>,
    keep_token_order: bool,
) -> Option<SlotErrorView> {
    let slot = si + 1;
    match unknown_in(slots[si].alts, list) {
        Some((a, word)) => Some(SlotErrorView::UnknownWord { slot, alt: a + 1, word }),
        None => match slots[si].position {
            None => None,
            Some(position) => if !(1 <= position <= 12) {
                Some(SlotErrorView::PositionOutOfRange { slot, position })
            } else if position_taken(slots, si, position) {
                Some(SlotErrorView::PositionTaken { slot, position })
            } else {
                match not_single(slots[si].alts) {
                    Some(a) => Some(SlotErrorView::SeveralWords { slot, position, alt: a + 1 }),
                    None => if keep_token_order && position != slot {
                        Some(SlotErrorView::OrderConflict { slot, position })
                    } else {
                        None
                    },
                }
            },
        },
    }
}

/// What is wrong with the first of the first `n` slots that is not in order.
pub open spec fn first_error(
    slots: Seq<SlotView>,
    n: int,
    list: Seq<Seq<char>>,
    keep_token_order: bool,
) -> Option<SlotErrorView>
    decreases n,
{
    if n <= 0 {
        None
    } else {
        match first_error(slots, n - 1, list, keep_token_order) {
            Some(e) => Some(e),
            None => slot_error(slots, n - 1, list, keep_token_order),
        }
    }
}

/// What is wrong with these slots.
pub open spec fn slots_error(
    slots: Seq<SlotView>,
    list: Seq<Seq<char>>,
    keep_token_order: bool,
) -> Option<SlotErrorView> {
    first_error(slots, slots.len() as int, list, keep_token_order)
}

proof fn lemma_first_error(
    slots: Seq<SlotView>,
    m: int,
    n: int,
    list: Seq<Seq<char>>,
    keep_token_order: bool,
)
    requires
        m <= n,
        first_error(slots, m, list, keep_token_order) is Some,
    ensures
        first_error(slots, n, list, keep_token_order) == first_error(
            slots,
            m,
            list,
            keep_token_order,
        ),
    decreases n - m,
{
    if m < n {
        lemma_first_error(slots, m, n - 1, list, keep_token_order);
    }
}

proof fn lemma_unknown_prefix(alt: Seq<TokenView>, n: int, list: Seq<Seq<char>>)
    requires
        0 <= n <= alt.len(),
        unknown_word(alt.take(n), list) is Some,
    ensures
        unknown_word(alt, list) == unknown_word(alt.take(n), list),
    decreases alt.len() - n,
{
    if n < alt.len() {
        assert(alt.take(n + 1).drop_last() =~= alt.take(n));
        lemma_unknown_prefix(alt, n + 1, list);
    } else {
        assert(alt.take(n) =~= alt);
    }
}

proof fn lemma_unknown_in_prefix(alts: Seq<Seq<TokenView>>, n: int, list: Seq<Seq<char>>)
    requires
        0 <= n <= alts.len(),
        unknown_in(alts.take(n), list) is Some,
    ensures
        unknown_in(alts, list) == unknown_in(alts.take(n), list),
    decreases alts.len() - n,
{
    if n < alts.len() {
        assert(alts.take(n + 1).drop_last() =~= alts.take(n));
        lemma_unknown_in_prefix(alts, n + 1, list);
    } else {
        assert(alts.take(n) =~= alts);
    }
}

proof fn lemma_not_single_prefix(alts: Seq<Seq<TokenView>>, n: int)
    requires
        0 <= n <= alts.len(),
        not_single(alts.take(n)) is Some,
    ensures
        not_single(alts) == not_single(alts.take(n)),
    decreases alts.len() - n,
{
    if n < alts.len() {
        assert(alts.take(n + 1).drop_last() =~= alts.take(n));
        lemma_not_single_prefix(alts, n + 1);
    } else {
        assert(alts.take(n) =~= alts);
    }
}

fn find_unknown(alt: &Alternative, wordlist: &[String]) -> (r: Option<String>)
    ensures
        match r {
            Some(w) => unknown_word(alternative_view(alt@), texts(wordlist@)) == Some(w@),
            None => unknown_word(alternative_view(alt@), texts(wordlist@)) is None,
        },
{
    let ghost view = alternative_view(alt@);
    let ghost list = texts(wordlist@);
    let mut i: usize = 0;
    while i < alt.len()
        invariant
            i <= alt.len(),
            view == alternative_view(alt@),
            list == texts(wordlist@),
            unknown_word(view.take(i as int), list) is None,
        decreases alt.len() - i,
    {
        proof {
            assert(view.take(i + 1).drop_last() =~= view.take(i as int));
            assert(view.take(i + 1).last() == alt@[i as int]@);
        }
        match &alt[i] {
            Token::Word(w) => {
                proof {
                    lemma_position(list, w@);
                }
                if find_word(wordlist, w).is_none() {
                    proof {
                        lemma_unknown_prefix(view, i + 1, list);
                    }
                    return Some(w.clone());
                }
            },
            Token::PinnedWord(w) => {
                proof {
                    lemma_position(list, w@);
                }
                if find_word(wordlist, w).is_none() {
                    proof {
                        lemma_unknown_prefix(view, i + 1, list);
                    }
                    return Some(w.clone());
                }
            },
            Token::Missing => {},
        }
        i += 1;
    }
    assert(view.take(i as int) =~= view);
    None
}

/// Checks one slot; the positions of the slots before it are in `seen`.
fn check_slot(
    slots: &[TokenlistSlot],
    si: usize,
    wordlist: &[String],
    keep_token_order: bool,
    seen: &HashSet<usize>,
) -> (r: Result<(), SlotError>)
    requires
        si < slots@.len(),
        forall|p: usize|
            seen@.contains(p) <==> #[trigger] position_taken(slot_views(slots@), si as int, p),
    ensures
        match r {
            Ok(_) => slot_error(slot_views(slots@), si as int, texts(wordlist@), keep_token_order)
                is None,
            Err(e) => slot_error(slot_views(slots@), si as int, texts(wordlist@), keep_token_order)
                == Some(e@),
        },
{
    broadcast use vstd::std_specs::hash::group_hash_axioms;

    let ghost views = slot_views(slots@);
    let ghost list = texts(wordlist@);
    assert(si < slots.len());
    let number = si + 1;
    let slot = &slots[si];
    let ghost alts = alternatives_view(slot.alts@);
    assert(views[si as int].alts == alts);
    let mut ai: usize = 0;
    assert(alts.take(0) =~= Seq::empty());
    while ai < slot.alts.len()
        invariant
            ai <= slot.alts.len(),
            alts == alternatives_view(slot.alts@),
            list == texts(wordlist@),
            views == slot_views(slots@),
            si < slots@.len(),
            number == si + 1,
            views[si as int].alts == alts,
            unknown_in(alts.take(ai as int), list) is None,
        decreases slot.alts.len() - ai,
    {
        proof {
            assert(alts.take(ai + 1).drop_last() =~= alts.take(ai as int));
            assert(alts.take(ai + 1).last() == alternative_view(slot.alts@[ai as int]@));
        }
        if let Some(word) = find_unknown(&slot.alts[ai], wordlist) {
            proof {
                lemma_unknown_in_prefix(alts, ai + 1, list);
            }
            return Err(SlotError::UnknownWord { slot: number, alt: ai + 1, word });
        }
        ai += 1;
    }
    assert(alts.take(ai as int) =~= alts);
    if let Some(position) = slot.position {
        if !(1 <= position && position <= 12) {
            return Err(SlotError::PositionOutOfRange { slot: number, position });
        }
        assert(seen@.contains(position) <==> position_taken(views, si as int, position));
        if seen.contains(&position) {
            return Err(SlotError::PositionTaken { slot: number, position });
        }
        let mut ai: usize = 0;
        while ai < slot.alts.len()
            invariant
                ai <= slot.alts.len(),
                alts == alternatives_view(slot.alts@),
                list == texts(wordlist@),
                views == slot_views(slots@),
                si < slots@.len(),
                number == si + 1,
                views[si as int].alts == alts,
                views[si as int].position == Some(position),
                unknown_in(alts, list) is None,
                1 <= position <= 12,
                !position_taken(views, si as int, position),
                not_single(alts.take(ai as int)) is None,
            decreases slot.alts.len() - ai,
        {
            proof {
                assert(alts.take(ai + 1).drop_last() =~= alts.take(ai as int));
                assert(alts.take(ai + 1).last() == alternative_view(slot.alts@[ai as int]@));
            }
            if slot.alts[ai].len() != 1 {
                proof {
                    lemma_not_single_prefix(alts, ai + 1);
                }
                return Err(SlotError::SeveralWords { slot: number, position, alt: ai + 1 });
            }
            ai += 1;
        }
        assert(alts.take(ai as int) =~= alts);
        if keep_token_order && position != number {
            return Err(SlotError::OrderConflict { slot: number, position });
        }
    }
    Ok(())
}

/// Checks the slots of a tokenlist against a word list: every word is in the list, and a slot
/// with a position has a position of its own in `1..=12`, holds single words only, and with
/// `keep_token_order` stands in the line of that number.
pub fn check_slots(slots: &[TokenlistSlot], wordlist: &[String], keep_token_order: bool) -> (r: Result<
    (),
    SlotError,
>)
    ensures
        match r {
            Ok(_) => slots_error(slot_views(slots@), texts(wordlist@), keep_token_order) is None,
            Err(e) => slots_error(slot_views(slots@), texts(wordlist@), keep_token_order)
                == Some(e@),
        },
        r is Ok <==> {
            &&& forall|i: int, a: int, t: int|
                0 <= i < slots@.len() && 0 <= a < slots@[i].alts@.len() && 0 <= t
                    < slots@[i].alts@[a]@.len() ==> match #[trigger] slots@[i].alts@[a]@[t] {
                    Token::Word(w) => texts(wordlist@).contains(w@),
                    Token::PinnedWord(w) => texts(wordlist@).contains(w@),
                    Token::Missing => true,
                }
            &&& forall|i: int|
                0 <= i < slots@.len() ==> ((#[trigger] slots@[i]).position matches Some(p) ==> 1
                    <= p <= 12)
            &&& forall|i: int, j: int|
                0 <= i < j < slots@.len() && (#[trigger] slots@[i]).position is Some
                    ==> slots@[i].position != (#[trigger] slots@[j]).position
            &&& forall|i: int, a: int|
                0 <= i < slots@.len() && 0 <= a < slots@[i].alts@.len() && slots@[i].position
                    is Some ==> (#[trigger] slots@[i].alts@[a])@.len() == 1
            &&& keep_token_order ==> forall|i: int|
                0 <= i < slots@.len() ==> ((#[trigger] slots@[i]).position matches Some(p) ==> p
                    == i + 1)
        },
{
    broadcast use vstd::std_specs::hash::group_hash_axioms;

    let ghost views = slot_views(slots@);
    let ghost list = texts(wordlist@);
    proof {
        lemma_accepted(slots@, list, keep_token_order);
    }
    let mut seen: HashSet<usize> = HashSet::new();
    let mut si: usize = 0;
    while si < slots.len()
        invariant
            si <= slots.len(),
            views == slot_views(slots@),
            list == texts(wordlist@),
            first_error(views, si as int, list, keep_token_order) is None,
            forall|p: usize| seen@.contains(p) <==> #[trigger] position_taken(views, si as int, p),
        decreases slots.len() - si,
    {
        match check_slot(slots, si, wordlist, keep_token_order, &seen) {
            Ok(_) => {},
            Err(e) => {
                proof {
                    lemma_first_error(views, si + 1, slots@.len() as int, list, keep_token_order);
                    lemma_accepted(slots@, list, keep_token_order);
                }
                return Err(e);
            },
        }
        let ghost before = seen@;
        if let Some(position) = slots[si].position {
            seen.insert(position);
        }
        si += 1;
        proof {
            assert forall|p: usize| seen@.contains(p) <==> #[trigger] position_taken(
                views,
                si as int,
                p,
            ) by {
                assert(before.contains(p) <==> position_taken(views, si - 1, p));
                assert(views[si - 1].position == slots@[si - 1].position);
                if position_taken(views, si - 1, p) {
                    let j = choose|j: int| 0 <= j < si - 1 && #[trigger] views[j].position == Some(
                        p,
                    );
                    assert(views[j].position == Some(p));
                }
            }
        }
    }
    Ok(())
}

proof fn lemma_accepted(
    slots: Seq<TokenlistSlot>,
    list: Seq<Seq<char>>,
    keep_token_order: bool,
)
    ensures
        slots_error(slot_views(slots), list, keep_token_order) is None <==> {
            &&& forall|i: int, a: int, t: int|
                0 <= i < slots.len() && 0 <= a < slots[i].alts@.len() && 0 <= t
                    < slots[i].alts@[a]@.len() ==> match #[trigger] slots[i].alts@[a]@[t] {
                    Token::Word(w) => list.contains(w@),
                    Token::PinnedWord(w) => list.contains(w@),
                    Token::Missing => true,
                }
            &&& forall|i: int|
                0 <= i < slots.len() ==> ((#[trigger] slots[i]).position matches Some(p) ==> 1 <= p
                    <= 12)
            &&& forall|i: int, j: int|
                0 <= i < j < slots.len() && (#[trigger] slots[i]).position is Some
                    ==> slots[i].position != (#[trigger] slots[j]).position
            &&& forall|i: int, a: int|
                0 <= i < slots.len() && 0 <= a < slots[i].alts@.len() && slots[i].position is Some
                    ==> (#[trigger] slots[i].alts@[a])@.len() == 1
            &&& keep_token_order ==> forall|i: int|
                0 <= i < slots.len() ==> ((#[trigger] slots[i]).position matches Some(p) ==> p == i
                    + 1)
        },
{
    let views = slot_views(slots);
    slots_are_accepted(views, list, keep_token_order);
    assert forall|i: int| 0 <= i < slots.len() implies (#[trigger] views[i]).position
        == slots[i].position && views[i].alts.len() == slots[i].alts@.len() by {}
    assert forall|i: int, a: int| 0 <= i < slots.len() && 0 <= a < slots[i].alts@.len() implies (
    #[trigger] views[i].alts[a]).len() == slots[i].alts@[a]@.len() by {}
    assert forall|i: int, a: int, t: int|
        0 <= i < slots.len() && 0 <= a < slots[i].alts@.len() && 0 <= t
            < slots[i].alts@[a]@.len() implies #[trigger] views[i].alts[a][t]
        == slots[i].alts@[a]@[t]@ by {}
    if slots_error(views, list, keep_token_order) is None {
        assert forall|i: int, a: int, t: int|
            0 <= i < slots.len() && 0 <= a < slots[i].alts@.len() && 0 <= t
                < slots[i].alts@[a]@.len() implies match #[trigger] slots[i].alts@[a]@[t] {
            Token::Word(w) => list.contains(w@),
            Token::PinnedWord(w) => list.contains(w@),
            Token::Missing => true,
        } by {
            assert(views[i].alts[a][t] == slots[i].alts@[a]@[t]@);
        }
        assert forall|i: int, j: int|
            0 <= i < j < slots.len() && (#[trigger] slots[i]).position
                is Some implies slots[i].position != (#[trigger] slots[j]).position by {
            assert(views[i].position is Some);
            assert(views[i].position != views[j].position);
        }
        assert forall|i: int, a: int|
            0 <= i < slots.len() && 0 <= a < slots[i].alts@.len() && slots[i].position
                is Some implies (#[trigger] slots[i].alts@[a])@.len() == 1 by {
            assert(views[i].alts[a].len() == 1);
        }
        assert forall|i: int| 0 <= i < slots.len() implies ((
        #[trigger] slots[i]).position matches Some(p) ==> 1 <= p <= 12 && (keep_token_order ==> p
            == i + 1)) by {
            assert(views[i].position == slots[i].position);
        }
    }
}

/// Checks the slots of a tokenlist against the word list of a language.
pub fn validate_slots(slots: &[TokenlistSlot], language: Language, keep_token_order: bool) -> (r:
    Result<(), SlotError>)
    ensures
        match r {
            Ok(_) => slots_error(slot_views(slots@), language_words(language), keep_token_order)
                is None,
            Err(e) => slots_error(slot_views(slots@), language_words(language), keep_token_order)
                == Some(e@),
        },
{
    let wordlist = word_list(language);
    check_slots(slots, &wordlist, keep_token_order)
}

////// Messages

fn push_number(out: &mut String, n: usize)
    ensures
        final(out)@ == old(out)@ + decimal(n as nat),
{
    let digits = decimal_string(n as u64);
    out.append(digits.as_str());
}

impl TokenlistError {
    /// What to tell the user.
    pub open spec fn text(self) -> Seq<char> {
        match self {
            TokenlistError::PositionWithoutWord { line } => "Line "@ + decimal(line as nat)
                + ": has a position number but no word/alternative after it"@,
            TokenlistError::NoSlots => "Tokenlist is empty or has no valid lines"@,
        }
    }

    /// Tells the user what is wrong.
    pub fn message(&self) -> (r: String)
        ensures
            r@ == self.text(),
            self matches TokenlistError::PositionWithoutWord { line } ==> r@ == "Line "@ + decimal(
                line as nat,
            ) + ": has a position number but no word/alternative after it"@,
            *self == TokenlistError::NoSlots ==> r@ == "Tokenlist is empty or has no valid lines"@,
    {
        match self {
            TokenlistError::PositionWithoutWord { line } => {
                let mut out = "Line ".to_owned();
                push_number(&mut out, *line);
                out.append(": has a position number but no word/alternative after it");
                out
            },
            TokenlistError::NoSlots => "Tokenlist is empty or has no valid lines".to_owned(),
        }
    }
}

impl SlotErrorView {
    /// What to tell the user.
    pub open spec fn text(self) -> Seq<char> {
        match self {
            SlotErrorView::UnknownWord { slot, alt, word } => "Slot "@ + decimal(slot as nat)
                + ", alt "@ + decimal(alt as nat) + ": '"@ + word + "' not in BIP-39 wordlist"@,
            SlotErrorView::PositionOutOfRange { slot, position } => "Slot "@ + decimal(slot as nat)
                + ": fixed position "@ + decimal(position as nat)
                + " out of range (must be 1..=12)"@,
            SlotErrorView::PositionTaken { slot, position } => "Slot "@ + decimal(slot as nat)
                + ": fixed position "@ + decimal(position as nat)
                + " is already used by another slot"@,
            SlotErrorView::SeveralWords { slot, position, alt } => "Slot "@ + decimal(slot as nat)
                + " (fixed position "@ + decimal(position as nat) + "), alt "@ + decimal(alt as nat)
                + ": must be exactly one word/'?' — a slot with a fixed position occupies a single spot in the phrase"@,
            SlotErrorView::OrderConflict { slot, position } => "Slot "@ + decimal(slot as nat)
                + ": fixed position "@ + decimal(position as nat)
                + " conflicts with --keep-token-order, which already fixes this slot at position "@
                + decimal(slot as nat) + " (its line order)"@,
        }
    }
}

impl SlotError {
    /// Tells the user what is wrong.
    pub fn message(&self) -> (r: String)
        ensures
            r@ == self@.text(),
            match self {
                SlotError::UnknownWord { slot, alt, word } => r@ == "Slot "@ + decimal(*slot as nat)
                    + ", alt "@ + decimal(*alt as nat) + ": '"@ + word@
                    + "' not in BIP-39 wordlist"@,
                SlotError::PositionOutOfRange { slot, position } => r@ == "Slot "@ + decimal(
                    *slot as nat,
                ) + ": fixed position "@ + decimal(*position as nat)
                    + " out of range (must be 1..=12)"@,
                SlotError::PositionTaken { slot, position } => r@ == "Slot "@ + decimal(
                    *slot as nat,
                ) + ": fixed position "@ + decimal(*position as nat)
                    + " is already used by another slot"@,
                SlotError::SeveralWords { slot, position, alt } => r@ == "Slot "@ + decimal(
                    *slot as nat,
                ) + " (fixed position "@ + decimal(*position as nat) + "), alt "@ + decimal(
                    *alt as nat,
                )
                    + ": must be exactly one word/'?' — a slot with a fixed position occupies a single spot in the phrase"@,
                SlotError::OrderConflict { slot, position } => r@ == "Slot "@ + decimal(
                    *slot as nat,
                ) + ": fixed position "@ + decimal(*position as nat)
                    + " conflicts with --keep-token-order, which already fixes this slot at position "@
                    + decimal(*slot as nat) + " (its line order)"@,
            },
    {
        let mut out = "Slot ".to_owned();
        match self {
            SlotError::UnknownWord { slot, alt, word } => {
                push_number(&mut out, *slot);
                out.append(", alt ");
                push_number(&mut out, *alt);
                out.append(": '");
                out.append(word.as_str());
                out.append("' not in BIP-39 wordlist");
            },
            SlotError::PositionOutOfRange { slot, position } => {
                push_number(&mut out, *slot);
                out.append(": fixed position ");
                push_number(&mut out, *position);
                out.append(" out of range (must be 1..=12)");
            },
            SlotError::PositionTaken { slot, position } => {
                push_number(&mut out, *slot);
                out.append(": fixed position ");
                push_number(&mut out, *position);
                out.append(" is already used by another slot");
            },
            SlotError::SeveralWords { slot, position, alt } => {
                push_number(&mut out, *slot);
                out.append(" (fixed position ");
                push_number(&mut out, *position);
                out.append("), alt ");
                push_number(&mut out, *alt);
                out.append(": must be exactly one word/'?' — a slot with a fixed position occupies a single spot in the phrase");
            },
            SlotError::OrderConflict { slot, position } => {
                push_number(&mut out, *slot);
                out.append(": fixed position ");
                push_number(&mut out, *position);
                out.append(" conflicts with --keep-token-order, which already fixes this slot at position ");
                push_number(&mut out, *slot);
                out.append(" (its line order)");
            },
        }
        out
    }
}

/// What to tell the user about the slots that were read.
pub open spec fn loaded_line(slots: nat, positioned: nat) -> Seq<char> {
    if positioned > 0 {
        "Loaded "@ + decimal(slots) + " slot(s) from tokenlist ("@ + decimal(positioned)
            + " with a fixed position)."@
    } else {
        "Loaded "@ + decimal(slots) + " slot(s) from tokenlist."@
    }
}

/// Tells the user how many slots were read, and how many of them have a position.
pub fn loaded_text(slots: &[TokenlistSlot]) -> (r: String)
    ensures
        r@ == loaded_line(slots@.len(), positioned(slot_views(slots@)) as nat),
        ({
            let fixed = slots@.filter(|s: TokenlistSlot| s.position is Some).len();
            r@ == if fixed > 0 {
                "Loaded "@ + decimal(slots@.len()) + " slot(s) from tokenlist ("@ + decimal(fixed)
                    + " with a fixed position)."@
            } else {
                "Loaded "@ + decimal(slots@.len()) + " slot(s) from tokenlist."@
            }
        }),
{
    let fixed = positioned_count(slots);
    let mut out = "Loaded ".to_owned();
    push_number(&mut out, slots.len());
    if fixed > 0 {
        out.append(" slot(s) from tokenlist (");
        push_number(&mut out, fixed);
        out.append(" with a fixed position).");
    } else {
        out.append(" slot(s) from tokenlist.");
    }
    out
}

} // verus!
