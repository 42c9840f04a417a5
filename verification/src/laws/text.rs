//! Laws of splitting, joining and numbers.
use vstd::prelude::*;

use crate::text::{
    ascii_lower_text, decimal, digit_char, digits_value, is_digit, joined, nonempty, parsed_number,
    pieces, rows, texts, words, Separator,
};

verus! {

////// Splitting

/// A text in which no separator stands is one piece.
pub proof fn text_without_separator_is_one_piece(s: Seq<char>, sep: Separator)
    requires
        forall|i: int| 0 <= i < s.len() ==> !sep.splits(#[trigger] s[i]),
    ensures
        pieces(s, sep) == seq![s],
    decreases s.len(),
{
    if s.len() == 0 {
        assert(s =~= Seq::empty());
    } else {
        let less = s.drop_last();
        assert forall|i: int| 0 <= i < less.len() implies !sep.splits(#[trigger] less[i]) by {
            assert(less[i] == s[i]);
        }
        text_without_separator_is_one_piece(less, sep);
        assert(!sep.splits(s[s.len() - 1]));
        assert(less.push(s.last()) =~= s);
        assert(pieces(s, sep) =~= seq![s]);
    }
}

/// There is always a piece.
pub proof fn lemma_pieces_positive(s: Seq<char>, sep: Separator)
    ensures
        pieces(s, sep).len() > 0,
    decreases s.len(),
{
    if s.len() > 0 {
        lemma_pieces_positive(s.drop_last(), sep);
    }
}

/// A separator parts a text: the pieces of what stands before it come first, and then those of what
/// stands behind it.
pub proof fn separator_parts_a_text(a: Seq<char>, c: char, b: Seq<char>, sep: Separator)
    requires
        sep.splits(c),
    ensures
        pieces(a.push(c) + b, sep) == pieces(a, sep) + pieces(b, sep),
    decreases b.len(),
{
    let all = a.push(c) + b;
    if b.len() == 0 {
        assert(all =~= a.push(c));
        assert(all.drop_last() =~= a);
        assert(b =~= Seq::empty());
        assert(pieces(all, sep) =~= pieces(a, sep) + pieces(b, sep));
    } else {
        let less = b.drop_last();
        separator_parts_a_text(a, c, less, sep);
        lemma_pieces_positive(less, sep);
        assert(all.drop_last() =~= a.push(c) + less);
        assert(all.last() == b.last());
        let p = pieces(a, sep);
        let q = pieces(less, sep);
        assert((p + q).last() == q.last());
        assert((p + q).drop_last() =~= p + q.drop_last());
        assert(pieces(all, sep) =~= p + pieces(b, sep));
    }
}

/// No piece has a separator in it.
pub proof fn pieces_have_no_separator(s: Seq<char>, sep: Separator)
    ensures
        forall|i: int, j: int|
            0 <= i < pieces(s, sep).len() && 0 <= j < pieces(s, sep)[i].len() ==> !sep.splits(
                #[trigger] pieces(s, sep)[i][j],
            ),
    decreases s.len(),
{
    let now = pieces(s, sep);
    if s.len() > 0 {
        let was = pieces(s.drop_last(), sep);
        pieces_have_no_separator(s.drop_last(), sep);
        lemma_pieces_positive(s.drop_last(), sep);
        assert forall|i: int, j: int|
            0 <= i < now.len() && 0 <= j < now[i].len() implies !sep.splits(
            #[trigger] now[i][j],
        ) by {
            if i < was.len() && j < was[i].len() {
                assert(now[i][j] == was[i][j]);
            }
        }
    }
}

/// Of several texts those are left that are not empty, in their order.
pub proof fn nonempty_ones_are_left<T>(s: Seq<Seq<T>>)
    ensures
        nonempty(s) == s.filter(|x: Seq<T>| x.len() > 0),
    decreases s.len(),
{
    reveal(Seq::filter);
    if s.len() > 0 {
        nonempty_ones_are_left(s.drop_last());
    }
}

/// Two lists in a row leave what each of them leaves.
pub proof fn lemma_nonempty_add<T>(a: Seq<Seq<T>>, b: Seq<Seq<T>>)
    ensures
        nonempty(a + b) == nonempty(a) + nonempty(b),
    decreases b.len(),
{
    if b.len() == 0 {
        assert(a + b =~= a);
        assert(nonempty(a) + nonempty(b) =~= nonempty(a));
    } else {
        lemma_nonempty_add(a, b.drop_last());
        assert((a + b).drop_last() =~= a + b.drop_last());
        assert((a + b).last() == b.last());
        assert(nonempty(a + b) =~= nonempty(a) + nonempty(b));
    }
}

/// Whitespace parts words: those before it come first, and then those behind it.
pub proof fn whitespace_parts_words(a: Seq<char>, c: char, b: Seq<char>)
    requires
        Separator::Whitespace.splits(c),
    ensures
        words(a.push(c) + b) == words(a) + words(b),
{
    separator_parts_a_text(a, c, b, Separator::Whitespace);
    lemma_nonempty_add(pieces(a, Separator::Whitespace), pieces(b, Separator::Whitespace));
}

/// A text without whitespace is one word, or none where it is empty.
pub proof fn text_without_whitespace_is_one_word(s: Seq<char>)
    requires
        forall|i: int| 0 <= i < s.len() ==> !Separator::Whitespace.splits(#[trigger] s[i]),
    ensures
        words(s) == if s.len() > 0 {
            seq![s]
        } else {
            Seq::empty()
        },
{
    text_without_separator_is_one_piece(s, Separator::Whitespace);
    reveal_with_fuel(nonempty, 2);
    assert(seq![s].drop_last() =~= Seq::empty());
    assert(Seq::<Seq<char>>::empty().push(s) =~= seq![s]);
}

/// No word is empty, and none has whitespace in it.
pub proof fn words_are_plain(s: Seq<char>)
    ensures
        forall|i: int| 0 <= i < words(s).len() ==> (#[trigger] words(s)[i]).len() > 0,
        forall|i: int, j: int|
            0 <= i < words(s).len() && 0 <= j < words(s)[i].len()
                ==> !Separator::Whitespace.splits(#[trigger] words(s)[i][j]),
{
    let p = pieces(s, Separator::Whitespace);
    crate::tokenlist::lemma_nonempty(p);
    pieces_have_no_separator(s, Separator::Whitespace);
    assert forall|i: int, j: int|
        0 <= i < words(s).len() && 0 <= j < words(s)[i].len() implies !Separator::Whitespace.splits(
        #[trigger] words(s)[i][j],
    ) by {
        let k = lemma_nonempty_from(p, i);
        assert(words(s)[i][j] == p[k][j]);
    }
}

/// What is left was there.
pub proof fn lemma_nonempty_from<T>(s: Seq<Seq<T>>, i: int) -> (k: int)
    requires
        0 <= i < nonempty(s).len(),
    ensures
        0 <= k < s.len(),
        s[k] == nonempty(s)[i],
    decreases s.len(),
{
    if i < nonempty(s.drop_last()).len() {
        lemma_nonempty_from(s.drop_last(), i)
    } else {
        s.len() - 1
    }
}

/// The texts of strings, and the contents of vectors, are as many as there are, each in its place.
pub proof fn texts_and_rows_keep_their_places(v: Seq<String>, r: Seq<Vec<char>>)
    ensures
        texts(v).len() == v.len(),
        forall|i: int| 0 <= i < v.len() ==> #[trigger] texts(v)[i] == v[i]@,
        rows(r).len() == r.len(),
        forall|i: int| 0 <= i < r.len() ==> #[trigger] rows(r)[i] == r[i]@,
{
}

////// Joining

/// Nothing joins to nothing, one text to itself, and one text more comes behind a separator.
pub proof fn joining_puts_separators_between(parts: Seq<Seq<char>>, x: Seq<char>, sep: Seq<char>)
    ensures
        joined(Seq::empty(), sep) == Seq::<char>::empty(),
        joined(seq![x], sep) == x,
        parts.len() > 0 ==> joined(parts.push(x), sep) == joined(parts, sep) + sep + x,
{
    assert(parts.push(x).drop_last() =~= parts);
}

////// Numbers

/// A single decimal digit reads as its value, and any other single character is no number; nor is
/// the empty text.
pub proof fn one_digit_number(d: int, c: char)
    ensures
        0 <= d < 10 ==> parsed_number(seq!["0123456789"@[d]]) == Some(d as usize),
        !"0123456789"@.contains(c) ==> parsed_number(seq![c]) is None,
        parsed_number(Seq::empty()) is None,
{
    reveal_strlit("0123456789");
    reveal_with_fuel(digits_value, 2);
    if 0 <= d < 10 {
        let s = seq!["0123456789"@[d]];
        assert(s.drop_last() =~= Seq::empty());
        assert(digits_value(s) == Some(d));
    }
    if !"0123456789"@.contains(c) {
        let s = seq![c];
        assert(s.drop_last() =~= Seq::empty());
        if is_digit(c) {
            assert("0123456789"@[c as int - '0' as int] == c);
        }
        if c == '+' {
            assert(s.skip(1) =~= Seq::empty());
        }
    }
}

/// A digit behind a number makes it ten times as large and adds its value, as long as that can be
/// held. Any other character behind it spoils it.
pub proof fn number_is_read_digit_by_digit(s: Seq<char>, c: char)
    requires
        s.len() > 0,
        s != seq!['+'],
    ensures
        forall|d: int|
            0 <= d < 10 && c == #[trigger] "0123456789"@[d] ==> parsed_number(s.push(c)) == (
            match parsed_number(s) {
                Some(v) => if 10 * v + d <= usize::MAX {
                    Some((10 * v + d) as usize)
                } else {
                    None
                },
                None => None,
            }),
        !"0123456789"@.contains(c) ==> parsed_number(s.push(c)) is None,
{
    reveal_strlit("0123456789");
    let now = s.push(c);
    let t = if s[0] == '+' {
        s.skip(1)
    } else {
        s
    };
    assert(t.len() > 0) by {
        if s[0] == '+' && s.len() == 1 {
            assert(s =~= seq!['+']);
        }
    }
    let u = if now[0] == '+' {
        now.skip(1)
    } else {
        now
    };
    assert(u =~= t.push(c));
    assert(u.drop_last() =~= t);
    lemma_value_sign(t);
    if !"0123456789"@.contains(c) && is_digit(c) {
        assert("0123456789"@[c as int - '0' as int] == c);
    }
}

proof fn lemma_value_sign(s: Seq<char>)
    ensures
        digits_value(s) matches Some(v) ==> v >= 0,
    decreases s.len(),
{
    if s.len() > 0 {
        lemma_value_sign(s.drop_last());
    }
}

/// A plus sign in front of something that has no sign of its own makes no difference to it, and a
/// sign alone is no number.
pub proof fn plus_sign_makes_no_difference(s: Seq<char>)
    ensures
        s.len() > 0 && s[0] != '+' ==> parsed_number(seq!['+'] + s) == parsed_number(s),
        s.len() == 0 || s[0] == '+' ==> parsed_number(seq!['+'] + s) is None,
{
    let t = seq!['+'] + s;
    assert(t.skip(1) =~= s);
    if s.len() > 0 && s[0] == '+' {
        lemma_sign_is_no_digit(s);
    }
}

proof fn lemma_sign_is_no_digit(s: Seq<char>)
    requires
        s.len() > 0,
        s[0] == '+',
    ensures
        digits_value(s) is None,
    decreases s.len(),
{
    if s.len() > 1 {
        lemma_sign_is_no_digit(s.drop_last());
    }
}

/// Numbers below ten are written with their digit, and every other number with what it has in
/// tens and, behind that, the digit of what is left.
pub proof fn number_is_written_digit_by_digit(n: nat, d: int)
    requires
        0 <= d < 10,
    ensures
        decimal(d as nat) == seq!["0123456789"@[d]],
        n > 0 ==> decimal((10 * n + d) as nat) == decimal(n).push("0123456789"@[d]),
{
    reveal_strlit("0123456789");
    assert(digit_char(d) == "0123456789"@[d]);
    if n > 0 {
        let m = (10 * n + d) as nat;
        assert(m / 10 == n && m % 10 == d);
    }
}

/// A number that is written reads as itself.
pub proof fn written_number_is_read_back(n: nat)
    requires
        n <= usize::MAX,
    ensures
        parsed_number(decimal(n)) == Some(n as usize),
{
    lemma_decimal_value(n);
}

proof fn lemma_decimal_value(n: nat)
    ensures
        decimal(n).len() > 0,
        is_digit(decimal(n)[0]),
        digits_value(decimal(n)) == Some(n as int),
    decreases n,
{
    reveal_with_fuel(digits_value, 2);
    let s = decimal(n);
    if n < 10 {
        assert(s.drop_last() =~= Seq::empty());
        assert(digit_char(n as int) as int == '0' as int + n);
    } else {
        lemma_decimal_value(n / 10);
        assert(s.drop_last() =~= decimal(n / 10));
        assert(s.last() == digit_char((n % 10) as int));
        assert(digit_char((n % 10) as int) as int == '0' as int + n % 10);
    }
}

////// Letter case

/// Of an ASCII text, each capital becomes the small letter with the same place in the alphabet, and
/// everything else stays.
pub proof fn small_letters_of_a_text(s: Seq<char>, i: int)
    requires
        0 <= i < s.len(),
    ensures
        ascii_lower_text(s).len() == s.len(),
        forall|k: int|
            0 <= k < 26 && s[i] == #[trigger] "ABCDEFGHIJKLMNOPQRSTUVWXYZ"@[k] ==> ascii_lower_text(
                s,
            )[i] == "abcdefghijklmnopqrstuvwxyz"@[k],
        !"ABCDEFGHIJKLMNOPQRSTUVWXYZ"@.contains(s[i]) ==> ascii_lower_text(s)[i] == s[i],
{
    reveal_strlit("ABCDEFGHIJKLMNOPQRSTUVWXYZ");
    reveal_strlit("abcdefghijklmnopqrstuvwxyz");
    if 'A' <= s[i] <= 'Z' {
        assert("ABCDEFGHIJKLMNOPQRSTUVWXYZ"@[s[i] as int - 'A' as int] == s[i]);
    }
}

} // verus!
