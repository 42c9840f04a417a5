//! What word mode looks up and reports about the words.
use vstd::prelude::*;

use crate::laws::words::{is_plain_word, phrase_line_splits};
use crate::text::{
    chars_of, concat3, decimal, decimal_string, is_whitespace, join, joined, rows, split_nonempty,
    string_of, texts, words, Separator,
};
use crate::tokens::{find_word, lemma_position, position};

verus! {

////// Recovered words

/// What is left of `ws` when each of the words of `known` is struck out once, as far as it occurs.
pub open spec fn recovered(known: Seq<Seq<char>>, ws: Seq<Seq<char>>) -> Seq<Seq<char>>
    decreases ws.len(),
{
    if ws.len() == 0 {
        Seq::empty()
    } else {
        match position(known, ws[0]) {
            Some(p) => recovered(known.remove(p), ws.drop_first()),
            None => seq![ws[0]] + recovered(known, ws.drop_first()),
        }
    }
}

/// The words of a phrase that were not among the known ones.
pub fn recovered_words(known: &[String], phrase: &str) -> (r: Vec<String>)
    ensures
        texts(r@) == recovered(texts(known@), words(phrase@)),
{
    let mut rem: Vec<String> = Vec::new();
    let mut i: usize = 0;
    while i < known.len()
        invariant
            i <= known.len(),
            rem@.len() == i,
            forall|k: int| 0 <= k < i ==> (#[trigger] rem@[k])@ == known@[k]@,
        decreases known.len() - i,
    {
        rem.push(known[i].clone());
        i += 1;
    }
    assert(texts(rem@) =~= texts(known@));
    let chars = chars_of(phrase);
    let parts = split_nonempty(&chars, Separator::Whitespace);
    let ghost ws = words(phrase@);
    let ghost goal = recovered(texts(known@), ws);
    let mut out: Vec<String> = Vec::new();
    let mut j: usize = 0;
    assert(ws.skip(0) =~= ws);
    assert(texts(out@) + recovered(texts(rem@), ws) =~= goal);
    while j < parts.len()
        invariant
            j <= parts.len(),
            rows(parts@) == ws,
            goal == texts(out@) + recovered(texts(rem@), ws.skip(j as int)),
        decreases parts.len() - j,
    {
        let w = string_of(&parts[j]);
        let ghost todo = ws.skip(j as int);
        let ghost left = texts(rem@);
        let ghost before = texts(out@);
        proof {
            assert(todo[0] == w@);
            assert(todo.drop_first() =~= ws.skip(j + 1));
            lemma_position(left, w@);
        }
        match find_word(&rem, &w) {
            Some(p) => {
                rem.remove(p);
                assert(texts(rem@) =~= left.remove(p as int));
            },
            None => {
                out.push(w);
                assert(texts(out@) =~= before.push(todo[0]));
                assert(goal =~= texts(out@) + recovered(left, ws.skip(j + 1)));
            },
        }
        j += 1;
    }
    assert(ws.skip(j as int).len() == 0);
    assert(goal =~= texts(out@));
    out
}

////// Word numbers

/// The first of the words that is not in the list.
pub open spec fn first_unknown(ws: Seq<Seq<char>>, list: Seq<Seq<char>>) -> Option<Seq<char>>
    decreases ws.len(),
{
    if ws.len() == 0 {
        None
    } else {
        match first_unknown(ws.drop_last(), list) {
            Some(w) => Some(w),
            None => if position(list, ws.last()) is None {
                Some(ws.last())
            } else {
                None
            },
        }
    }
}

/// The number of each word in the list.
pub open spec fn word_numbers(ws: Seq<Seq<char>>, list: Seq<Seq<char>>) -> Seq<u16> {
    ws.map_values(|w: Seq<char>| position(list, w)->0 as u16)
}

proof fn lemma_first_unknown(ws: Seq<Seq<char>>, n: int, list: Seq<Seq<char>>)
    requires
        0 <= n <= ws.len(),
        first_unknown(ws.take(n), list) is Some,
    ensures
        first_unknown(ws, list) == first_unknown(ws.take(n), list),
    decreases ws.len(),
{
    if n < ws.len() {
        assert(ws.drop_last().take(n) =~= ws.take(n));
        lemma_first_unknown(ws.drop_last(), n, list);
    } else {
        assert(ws.take(n) =~= ws);
    }
}

/// Looks the number of each word up, or gives the first word that is not in the list.
pub fn known_indices(ws: &[String], wordlist: &[String]) -> (r: Result<Vec<u16>, String>)
    ensures
        match r {
            Ok(v) => {
                &&& first_unknown(texts(ws@), texts(wordlist@)) is None
                &&& v@ == word_numbers(texts(ws@), texts(wordlist@))
            },
            Err(w) => first_unknown(texts(ws@), texts(wordlist@)) == Some(w@),
        },
        match r {
            Ok(v) => {
                &&& v@.len() == ws@.len()
                &&& wordlist@.len() <= 65536 ==> forall|k: int|
                    0 <= k < v@.len() ==> (#[trigger] v@[k]) < wordlist@.len()
                        && wordlist@[v@[k] as int]@ == ws@[k]@ && forall|j: int|
                        0 <= j < v@[k] ==> (#[trigger] wordlist@[j])@ != ws@[k]@
            },
            Err(w) => exists|k: int|
                0 <= k < ws@.len() && (#[trigger] ws@[k])@ == w@ && (forall|j: int|
                    0 <= j < wordlist@.len() ==> (#[trigger] wordlist@[j])@ != w@) && forall|i: int|
                    0 <= i < k ==> exists|j: int|
                        0 <= j < wordlist@.len() && (#[trigger] wordlist@[j])@ == (
                        #[trigger] ws@[i])@,
        },
{
    let ghost all = texts(ws@);
    let ghost list = texts(wordlist@);
    let mut out: Vec<u16> = Vec::new();
    let mut i: usize = 0;
    while i < ws.len()
        invariant
            i <= ws.len(),
            all == texts(ws@),
            list == texts(wordlist@),
            first_unknown(all.take(i as int), list) is None,
            out@.len() == i,
            forall|k: int| 0 <= k < i ==> #[trigger] out@[k] == position(list, all[k])->0 as u16,
            wordlist@.len() <= 65536 ==> forall|k: int|
                0 <= k < i ==> (#[trigger] out@[k]) < wordlist@.len() && wordlist@[out@[k] as int]@
                    == ws@[k]@ && forall|j: int|
                    0 <= j < out@[k] ==> (#[trigger] wordlist@[j])@ != ws@[k]@,
            forall|k: int|
                0 <= k < i ==> exists|j: int|
                    0 <= j < wordlist@.len() && (#[trigger] wordlist@[j])@ == (#[trigger] ws@[k])@,
        decreases ws.len() - i,
    {
        proof {
            assert(all.take(i + 1).drop_last() =~= all.take(i as int));
            assert(all.take(i + 1).last() == ws@[i as int]@);
            lemma_position(list, ws@[i as int]@);
        }
        match find_word(wordlist, &ws[i]) {
            Some(p) => out.push(p as u16),
            None => {
                proof {
                    lemma_first_unknown(all, i + 1, list);
                }
                return Err(ws[i].clone());
            },
        }
        i += 1;
    }
    assert(all.take(i as int) =~= all);
    assert(out@ =~= word_numbers(all, list));
    Ok(out)
}

/// The words with these numbers.
pub open spec fn words_at(list: Seq<Seq<char>>, codes: Seq<u16>) -> Seq<Seq<char>> {
    codes.map_values(|c: u16| list[c as int])
}

/// Writes the words with these numbers as one line.
pub fn phrase_text(wordlist: &[String], codes: &[u16]) -> (r: String)
    requires
        forall|i: int| 0 <= i < codes@.len() ==> #[trigger] codes@[i] < wordlist@.len(),
    ensures
        r@ == crate::word_mode::phrase_line(words_at(texts(wordlist@), codes@)),
        r@ == joined(Seq::new(codes@.len(), |i: int| wordlist@[codes@[i] as int]@), " "@),
        (forall|w: int, j: int|
            0 <= w < wordlist@.len() && 0 <= j < wordlist@[w]@.len()
                ==> !Separator::Whitespace.splits(#[trigger] wordlist@[w]@[j])) && (forall|w: int|
            0 <= w < wordlist@.len() ==> (#[trigger] wordlist@[w])@.len() > 0) ==> {
            &&& words(r@).len() == codes@.len()
            &&& forall|i: int|
                0 <= i < codes@.len() ==> #[trigger] words(r@)[i] == wordlist@[codes@[i] as int]@
        },
{
    let mut ws: Vec<String> = Vec::new();
    let mut i: usize = 0;
    while i < codes.len()
        invariant
            i <= codes.len(),
            forall|i: int| 0 <= i < codes@.len() ==> #[trigger] codes@[i] < wordlist@.len(),
            ws@.len() == i,
            forall|k: int| 0 <= k < i ==> (#[trigger] ws@[k])@ == wordlist@[codes@[k] as int]@,
        decreases codes.len() - i,
    {
        ws.push(wordlist[codes[i] as usize].clone());
        i += 1;
    }
    let ghost list = texts(wordlist@);
    assert(texts(ws@) =~= words_at(list, codes@));
    proof {
        assert(texts(ws@) =~= Seq::new(codes@.len(), |i: int| wordlist@[codes@[i] as int]@));
        if (forall|w: int, j: int|
            0 <= w < wordlist@.len() && 0 <= j < wordlist@[w]@.len()
                ==> !Separator::Whitespace.splits(#[trigger] wordlist@[w]@[j])) && (forall|w: int|
            0 <= w < wordlist@.len() ==> (#[trigger] wordlist@[w])@.len() > 0) {
            let line = words_at(list, codes@);
            assert forall|i: int| 0 <= i < line.len() implies is_plain_word(#[trigger] line[i]) by {
                let w = codes@[i] as int;
                assert(line[i] == wordlist@[w]@);
                assert forall|j: int| 0 <= j < line[i].len() implies !is_whitespace(
                    #[trigger] line[i][j],
                ) by {
                    assert(!Separator::Whitespace.splits(wordlist@[w]@[j]));
                }
            }
            phrase_line_splits(line);
        }
    }
    join(&ws, " ")
}

/// The words at these indices.
pub open spec fn picked_words(ws: Seq<Seq<char>>, at: Seq<usize>) -> Seq<Seq<char>> {
    at.map_values(|i: usize| ws[i as int])
}

/// Lists the pinned words.
pub fn pinned_text(ws: &[String], pinned: &[usize]) -> (r: String)
    requires
        forall|k: int| 0 <= k < pinned@.len() ==> #[trigger] pinned@[k] < ws@.len(),
    ensures
        r@ == joined(picked_words(texts(ws@), pinned@), ", "@),
        r@ == joined(Seq::new(pinned@.len(), |k: int| ws@[pinned@[k] as int]@), ", "@),
{
    let mut out: Vec<String> = Vec::new();
    let mut i: usize = 0;
    while i < pinned.len()
        invariant
            i <= pinned.len(),
            forall|k: int| 0 <= k < pinned@.len() ==> #[trigger] pinned@[k] < ws@.len(),
            out@.len() == i,
            forall|k: int| 0 <= k < i ==> (#[trigger] out@[k])@ == ws@[pinned@[k] as int]@,
        decreases pinned.len() - i,
    {
        out.push(ws[pinned[i]].clone());
        i += 1;
    }
    assert(texts(out@) =~= picked_words(texts(ws@), pinned@));
    assert(texts(out@) =~= Seq::new(pinned@.len(), |k: int| ws@[pinned@[k] as int]@));
    join(&out, ", ")
}

////// How many words

/// Word mode takes ten to twelve known words.
pub open spec fn is_word_count(n: int) -> bool {
    10 <= n <= 12
}

/// Checks how many known words there are.
pub fn check_word_count(n: usize) -> (r: Result<(), String>)
    ensures
        r is Ok <==> n == 10 || n == 11 || n == 12,
        match r {
            Ok(_) => is_word_count(n as int),
            Err(message) => {
                &&& !is_word_count(n as int)
                &&& message@ == "Word mode: expected 10–12 words, got "@ + decimal(n as nat)
                    + ". Use --tokenlist for slot-based search."@
            },
        },
{
    if 10 <= n && n <= 12 {
        Ok(())
    } else {
        let digits = decimal_string(n as u64);
        Err(
            concat3(
                "Word mode: expected 10–12 words, got ",
                digits.as_str(),
                ". Use --tokenlist for slot-based search.",
            ),
        )
    }
}

} // verus!
