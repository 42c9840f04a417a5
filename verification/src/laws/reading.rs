//! Laws of what the text of a tokenlist says.
use vstd::prelude::*;

use crate::laws::text::{
    lemma_nonempty_add, nonempty_ones_are_left, separator_parts_a_text,
    text_without_separator_is_one_piece, words_are_plain,
};
use crate::text::{nonempty, parsed_number, pieces, words, Separator};
use crate::tokenlist::{
    alternatives_of, empty_lines, first_no_word, line_view, line_views, positioned, slots_in,
    token_of, tokenlist_slots, tokenlist_warnings, tokens_of, LineView, TokenlistError,
};
use crate::tokens::{
    alternative_view, alternatives_view, slot_views, word_of, SlotView, Token, TokenView,
    TokenlistSlot,
};

verus! {

////// Tokens and alternatives

/// A lone question mark is an unknown word, a text in double quotes a pinned word without its
/// quotes, and every other text is a word as it stands.
pub proof fn token_is_read(t: Seq<char>)
    ensures
        token_of(t) is Missing <==> t == seq!['?'],
        token_of(t) is PinnedWord <==> t.len() >= 2 && t[0] == '"' && t[t.len() - 1] == '"',
        token_of(t) matches TokenView::PinnedWord(w) ==> t == seq!['"'] + w + seq!['"'],
        token_of(t) matches TokenView::Word(w) ==> w == t,
{
    if token_of(t) is PinnedWord {
        assert(t =~= seq!['"'] + token_of(t)->PinnedWord_0 + seq!['"']);
    }
    assert(seq!['?'].len() == 1);
}

/// The word that a token names is the text of a word, pinned or not; an unknown word names none.
pub proof fn word_of_a_token(w: Seq<char>)
    ensures
        word_of(TokenView::Word(w)) == Some(w),
        word_of(TokenView::PinnedWord(w)) == Some(w),
        word_of(TokenView::Missing) is None,
{
}

/// A text without commas is one token, or none where it is empty.
pub proof fn text_without_comma_is_one_token(s: Seq<char>)
    requires
        !s.contains(','),
    ensures
        tokens_of(s) == if s.len() > 0 {
            seq![token_of(s)]
        } else {
            Seq::empty()
        },
{
    assert forall|i: int| 0 <= i < s.len() implies !Separator::Comma.splits(#[trigger] s[i]) by {
        assert(s.contains(s[i]));
    }
    text_without_separator_is_one_piece(s, Separator::Comma);
    reveal_with_fuel(nonempty, 2);
    assert(seq![s].drop_last() =~= Seq::empty());
    assert(tokens_of(s) =~= if s.len() > 0 {
        seq![token_of(s)]
    } else {
        Seq::empty()
    });
}

/// A comma parts tokens: those before it come first, and then those behind it.
pub proof fn comma_parts_tokens(a: Seq<char>, b: Seq<char>)
    ensures
        tokens_of(a.push(',') + b) == tokens_of(a) + tokens_of(b),
{
    separator_parts_a_text(a, ',', b, Separator::Comma);
    lemma_nonempty_add(pieces(a, Separator::Comma), pieces(b, Separator::Comma));
    assert(tokens_of(a.push(',') + b) =~= tokens_of(a) + tokens_of(b));
}

/// A text has a token exactly if it holds something other than commas.
pub proof fn text_with_tokens(s: Seq<char>)
    ensures
        tokens_of(s).len() > 0 <==> exists|j: int| 0 <= j < s.len() && #[trigger] s[j] != ',',
    decreases s.len(),
{
    let p = pieces(s, Separator::Comma);
    if s.len() == 0 {
        reveal_with_fuel(nonempty, 2);
        assert(p.last().len() == 0);
        assert(p.drop_last() =~= Seq::empty());
    } else {
        let less = s.drop_last();
        let q = pieces(less, Separator::Comma);
        text_with_tokens(less);
        if s.last() == ',' {
            assert(p.drop_last() =~= q);
            assert(p.last().len() == 0);
            if exists|j: int| 0 <= j < less.len() && #[trigger] less[j] != ',' {
                let j = choose|j: int| 0 <= j < less.len() && #[trigger] less[j] != ',';
                assert(s[j] != ',');
            }
            if exists|j: int| 0 <= j < s.len() && #[trigger] s[j] != ',' {
                let j = choose|j: int| 0 <= j < s.len() && #[trigger] s[j] != ',';
                assert(less[j] != ',');
            }
        } else {
            assert(p.last() == q.last().push(s.last()));
            assert(nonempty(p).len() > 0);
            assert(s[s.len() - 1] != ',');
        }
    }
}

/// The alternatives of a slot are what its parts say, in their order, without those that say
/// nothing.
pub proof fn alternatives_are_the_parts(parts: Seq<Seq<char>>)
    ensures
        alternatives_of(parts) == parts.map_values(|p: Seq<char>| tokens_of(p)).filter(
            |a: Seq<TokenView>| a.len() > 0,
        ),
{
    nonempty_ones_are_left(parts.map_values(|p: Seq<char>| tokens_of(p)));
}

/// Where every part holds something other than commas, there are as many alternatives as parts, and
/// each of them consists of the tokens of its part.
pub proof fn every_part_is_an_alternative(parts: Seq<Seq<char>>)
    requires
        forall|i: int|
            0 <= i < parts.len() ==> (#[trigger] parts[i]).len() > 0 && exists|j: int|
                0 <= j < parts[i].len() && #[trigger] parts[i][j] != ',',
    ensures
        alternatives_of(parts).len() == parts.len(),
        forall|i: int|
            0 <= i < parts.len() ==> #[trigger] alternatives_of(parts)[i] == tokens_of(parts[i]),
    decreases parts.len(),
{
    let read = |p: Seq<char>| tokens_of(p);
    if parts.len() > 0 {
        let less = parts.drop_last();
        assert forall|i: int| 0 <= i < less.len() implies (#[trigger] less[i]).len() > 0
            && exists|j: int| 0 <= j < less[i].len() && #[trigger] less[i][j] != ',' by {
            assert(less[i] == parts[i]);
            let j = choose|j: int| 0 <= j < parts[i].len() && #[trigger] parts[i][j] != ',';
            assert(less[i][j] != ',');
        }
        every_part_is_an_alternative(less);
        let last = parts.len() - 1;
        assert(parts[last] == parts.last());
        text_with_tokens(parts[last]);
        assert(parts.map_values(read).drop_last() =~= less.map_values(read));
        assert(parts.map_values(read).last() == tokens_of(parts.last()));
        assert forall|i: int| 0 <= i < parts.len() implies #[trigger] alternatives_of(parts)[i]
            == tokens_of(parts[i]) by {
            if i < less.len() {
                assert(alternatives_of(less)[i] == tokens_of(less[i]));
            }
        }
    }
}

/// An alternative is in the slot exactly if some part has these tokens, and they are not none.
pub proof fn alternative_is_in_the_slot(parts: Seq<Seq<char>>, alt: Seq<TokenView>)
    ensures
        alternatives_of(parts).contains(alt) <==> alt.len() > 0 && exists|i: int|
            0 <= i < parts.len() && tokens_of(#[trigger] parts[i]) == alt,
    decreases parts.len(),
{
    let read = |p: Seq<char>| tokens_of(p);
    let now = alternatives_of(parts);
    if parts.len() > 0 {
        let less = parts.drop_last();
        let was = alternatives_of(less);
        alternative_is_in_the_slot(less, alt);
        assert(parts.map_values(read).drop_last() =~= less.map_values(read));
        assert(parts.map_values(read).last() == tokens_of(parts.last()));
        if now.contains(alt) {
            let k = now.index_of(alt);
            if k < was.len() {
                assert(was[k] == alt);
                let i = choose|i: int| 0 <= i < less.len() && tokens_of(#[trigger] less[i]) == alt;
                assert(tokens_of(parts[i]) == alt);
            } else {
                assert(tokens_of(parts[parts.len() - 1]) == alt);
            }
        }
        if alt.len() > 0 && exists|i: int|
            0 <= i < parts.len() && tokens_of(#[trigger] parts[i]) == alt {
            let i = choose|i: int| 0 <= i < parts.len() && tokens_of(#[trigger] parts[i]) == alt;
            if i < less.len() {
                assert(tokens_of(less[i]) == alt);
                let k = was.index_of(alt);
                assert(now[k] == alt);
            } else {
                assert(now[now.len() - 1] == alt);
            }
        }
    }
}

////// Lines

/// What a line says is told by its words. A line without any, or with a `#` in front, says nothing.
/// A number in front is the position of the slot. What stands behind it, or all words where no
/// number is in front, gives the alternatives; it must be there, and it must not be commas alone.
pub proof fn line_is_read(line: Seq<char>)
    ensures
        ({
            let parts = words(line);
            let ignored = parts.len() == 0 || parts[0][0] == '#';
            let from = if parsed_number(parts[0]) is Some {
                1int
            } else {
                0int
            };
            let commas = forall|i: int, j: int|
                from <= i < parts.len() && 0 <= j < parts[i].len() ==> #[trigger] parts[i][j]
                    == ',';
            &&& line_view(line) is Ignored <==> ignored
            &&& line_view(line) is NoWord <==> !ignored && parts.len() == from
            &&& line_view(line) is NothingLeft <==> !ignored && parts.len() > from && commas
            &&& line_view(line) is Slot <==> !ignored && parts.len() > from && !commas
            &&& line_view(line) matches LineView::Slot(slot) ==> {
                &&& slot.position == parsed_number(parts[0])
                &&& slot.alts == alternatives_of(parts.skip(from))
                &&& forall|alt: Seq<TokenView>| #[trigger]
                    slot.alts.contains(alt) <==> alt.len() > 0 && exists|i: int|
                        from <= i < parts.len() && tokens_of(#[trigger] parts[i]) == alt
            }
        }),
{
    let parts = words(line);
    let from = if parsed_number(parts[0]) is Some {
        1int
    } else {
        0int
    };
    words_are_plain(line);
    if !(parts.len() == 0 || parts[0][0] == '#') {
        let rest = parts.skip(from);
        assert(parts.skip(0) =~= parts);
        assert(parts.skip(1) =~= parts.drop_first());
        let alts = alternatives_of(rest);
        if alts.len() > 0 {
            assert(alts.contains(alts[0]));
            alternative_is_in_the_slot(rest, alts[0]);
            let i = choose|i: int| 0 <= i < rest.len() && tokens_of(#[trigger] rest[i]) == alts[0];
            text_with_tokens(rest[i]);
            let j = choose|j: int| 0 <= j < rest[i].len() && #[trigger] rest[i][j] != ',';
            assert(parts[i + from][j] != ',');
        }
        if exists|i: int, j: int|
            from <= i < parts.len() && 0 <= j < parts[i].len() && #[trigger] parts[i][j] != ',' {
            let (i, j) = choose|i: int, j: int|
                from <= i < parts.len() && 0 <= j < parts[i].len() && #[trigger] parts[i][j] != ',';
            assert(rest[i - from] == parts[i]);
            text_with_tokens(parts[i]);
            alternative_is_in_the_slot(rest, tokens_of(parts[i]));
            assert(alts.contains(tokens_of(rest[i - from])));
        }
        assert forall|alt: Seq<TokenView>| #[trigger] alts.contains(alt) <==> alt.len() > 0
            && exists|i: int|
            from <= i < parts.len() && tokens_of(#[trigger] parts[i]) == alt by {
            alternative_is_in_the_slot(rest, alt);
            if exists|i: int| 0 <= i < rest.len() && tokens_of(#[trigger] rest[i]) == alt {
                let i = choose|i: int| 0 <= i < rest.len() && tokens_of(#[trigger] rest[i]) == alt;
                assert(tokens_of(parts[i + from]) == alt);
            }
            if exists|i: int| from <= i < parts.len() && tokens_of(#[trigger] parts[i]) == alt {
                let i = choose|i: int|
                    from <= i < parts.len() && tokens_of(#[trigger] parts[i]) == alt;
                assert(tokens_of(rest[i - from]) == alt);
            }
        }
    }
}

/// The slots are those of the lines that give one, in their order.
pub proof fn slots_are_those_of_the_lines(lines: Seq<LineView>)
    ensures
        slots_in(lines) == lines.filter(|l: LineView| l is Slot).map_values(
            |l: LineView| l->Slot_0,
        ),
    decreases lines.len(),
{
    reveal(Seq::filter);
    let gives = |l: LineView| l is Slot;
    let slot = |l: LineView| l->Slot_0;
    if lines.len() == 0 {
        assert(slots_in(lines) =~= lines.filter(gives).map_values(slot));
    } else {
        slots_are_those_of_the_lines(lines.drop_last());
        assert(slots_in(lines) =~= lines.filter(gives).map_values(slot));
    }
}

/// The line that ends the reading is the first one with a position but no word.
pub proof fn first_line_without_word(lines: Seq<LineView>)
    ensures
        match first_no_word(lines) {
            Some(i) => {
                &&& 0 <= i < lines.len()
                &&& lines[i] is NoWord
                &&& forall|j: int| 0 <= j < i ==> !(#[trigger] lines[j] is NoWord)
            },
            None => forall|j: int| 0 <= j < lines.len() ==> !(#[trigger] lines[j] is NoWord),
        },
    decreases lines.len(),
{
    if lines.len() > 0 {
        let less = lines.drop_last();
        first_line_without_word(less);
        assert forall|j: int| 0 <= j < less.len() implies #[trigger] lines[j] == less[j] by {}
    }
}

/// The numbers of the lines to warn about are, in increasing order, one more than the indices of
/// those with nothing but commas.
pub proof fn lines_with_commas_only(lines: Seq<LineView>)
    ensures
        forall|n: int| #[trigger]
            empty_lines(lines).contains(n) <==> 1 <= n <= lines.len() && lines[n - 1]
                is NothingLeft,
        forall|i: int, j: int|
            0 <= i < j < empty_lines(lines).len() ==> #[trigger] empty_lines(lines)[i]
                < #[trigger] empty_lines(lines)[j],
    decreases lines.len(),
{
    let now = empty_lines(lines);
    if lines.len() > 0 {
        let less = lines.drop_last();
        let was = empty_lines(less);
        lines_with_commas_only(less);
        assert forall|n: int| #[trigger] now.contains(n) <==> 1 <= n <= lines.len() && lines[n - 1]
            is NothingLeft by {
            if was.contains(n) {
                let i = was.index_of(n);
                assert(now[i] == n);
            }
            if now.contains(n) {
                let i = now.index_of(n);
                if i < was.len() {
                    assert(was[i] == n);
                    assert(was.contains(n));
                }
            }
            if n == lines.len() && lines[n - 1] is NothingLeft {
                assert(now[now.len() - 1] == n);
            }
            if 1 <= n <= less.len() && lines[n - 1] is NothingLeft {
                assert(less[n - 1] is NothingLeft);
                assert(was.contains(n));
            }
        }
        assert forall|i: int, j: int| 0 <= i < j < now.len() implies #[trigger] now[i]
            < #[trigger] now[j] by {
            assert(now[i] == was[i]);
            assert(was.contains(was[i]));
            if j < was.len() {
                assert(now[j] == was[j]);
            }
        }
    }
}

/// A tokenlist is read line by line. It is refused at the first line with a position but no word,
/// which the error names by its number; otherwise it gives the slots of its lines, and where there
/// are none that is the error. The warnings name the lines with nothing but commas before the line
/// that ended the reading.
pub proof fn tokenlist_is_read(content: Seq<char>)
    requires
        pieces(content, Separator::Newline).len() <= usize::MAX,
    ensures
        ({
            let lines = pieces(content, Separator::Newline);
            let views = lines.map_values(|l: Seq<char>| line_view(l));
            let refused = exists|i: int| 0 <= i < lines.len() && line_view(#[trigger] lines[i])
                is NoWord;
            match tokenlist_slots(content) {
                Ok(slots) => {
                    &&& !refused
                    &&& slots == views.filter(|l: LineView| l is Slot).map_values(
                        |l: LineView| l->Slot_0,
                    )
                    &&& slots.len() > 0
                },
                Err(TokenlistError::PositionWithoutWord { line }) => {
                    &&& 1 <= line <= lines.len()
                    &&& line_view(lines[line - 1]) is NoWord
                    &&& forall|i: int| 0 <= i < line - 1 ==> !(line_view(#[trigger] lines[i])
                        is NoWord)
                },
                Err(TokenlistError::NoSlots) => {
                    &&& !refused
                    &&& forall|i: int| 0 <= i < lines.len() ==> !(line_view(#[trigger] lines[i])
                        is Slot)
                },
            }
        }),
        forall|n: int| #[trigger]
            tokenlist_warnings(content).contains(n) <==> {
                let lines = pieces(content, Separator::Newline);
                &&& 1 <= n <= lines.len()
                &&& line_view(lines[n - 1]) is NothingLeft
                &&& forall|i: int| 0 <= i < n ==> !(line_view(#[trigger] lines[i]) is NoWord)
            },
        forall|i: int, j: int|
            0 <= i < j < tokenlist_warnings(content).len() ==> #[trigger] tokenlist_warnings(
                content,
            )[i] < #[trigger] tokenlist_warnings(content)[j],
{
    let lines = pieces(content, Separator::Newline);
    let views = line_views(content);
    assert(views =~= lines.map_values(|l: Seq<char>| line_view(l)));
    first_line_without_word(views);
    slots_are_those_of_the_lines(views);
    assert forall|i: int| 0 <= i < lines.len() implies #[trigger] views[i] == line_view(
        lines[i],
    ) by {}
    match first_no_word(views) {
        Some(k) => {
            let before = views.take(k);
            lines_with_commas_only(before);
            assert(line_view(lines[k]) is NoWord);
            assert forall|i: int| 0 <= i < k implies !(line_view(#[trigger] lines[i]) is NoWord) by {
                assert(!(views[i] is NoWord));
            }
            assert forall|n: int| #[trigger] tokenlist_warnings(content).contains(n) <==> {
                &&& 1 <= n <= lines.len()
                &&& line_view(lines[n - 1]) is NothingLeft
                &&& forall|i: int| 0 <= i < n ==> !(line_view(#[trigger] lines[i]) is NoWord)
            } by {
                if n > k && (forall|i: int|
                    0 <= i < n ==> !(line_view(#[trigger] lines[i]) is NoWord)) {
                    assert(!(line_view(lines[k]) is NoWord));
                }
            }
        },
        None => {
            lines_with_commas_only(views);
            assert forall|i: int| 0 <= i < lines.len() implies !(line_view(#[trigger] lines[i])
                is NoWord) by {
                assert(!(views[i] is NoWord));
            }
            if slots_in(views).len() == 0 {
                assert forall|i: int| 0 <= i < lines.len() implies !(line_view(#[trigger] lines[i])
                    is Slot) by {
                    if views[i] is Slot {
                        lemma_slot_is_kept(views, i);
                    }
                }
            }
        },
    }
}

proof fn lemma_slot_is_kept(lines: Seq<LineView>, i: int)
    requires
        0 <= i < lines.len(),
        lines[i] is Slot,
    ensures
        slots_in(lines).len() > 0,
    decreases lines.len(),
{
    if i < lines.len() - 1 {
        lemma_slot_is_kept(lines.drop_last(), i);
    }
}

/// The slots that carry a position are counted.
pub proof fn positioned_slots_are_counted(slots: Seq<SlotView>)
    ensures
        positioned(slots) == slots.filter(|s: SlotView| s.position is Some).len(),
    decreases slots.len(),
{
    reveal(Seq::filter);
    if slots.len() > 0 {
        positioned_slots_are_counted(slots.drop_last());
    }
}

/// What a list of slots says is what is held: each slot in its place, with its position and its
/// alternatives, token by token.
pub proof fn slots_say_what_they_hold(slots: Seq<TokenlistSlot>, i: int, a: int, t: int)
    requires
        0 <= i < slots.len(),
        0 <= a < slots[i].alts@.len(),
        0 <= t < slots[i].alts@[a]@.len(),
    ensures
        slot_views(slots).len() == slots.len(),
        slot_views(slots)[i].position == slots[i].position,
        slot_views(slots)[i].alts.len() == slots[i].alts@.len(),
        slot_views(slots)[i].alts == alternatives_view(slots[i].alts@),
        slot_views(slots)[i].alts[a].len() == slots[i].alts@[a]@.len(),
        slot_views(slots)[i].alts[a] == alternative_view(slots[i].alts@[a]@),
        slot_views(slots)[i].alts[a][t] == match slots[i].alts@[a]@[t] {
            Token::Word(w) => TokenView::Word(w@),
            Token::PinnedWord(w) => TokenView::PinnedWord(w@),
            Token::Missing => TokenView::Missing,
        },
{
}

} // verus!
