//! Text as sequences of characters: splitting, numbers in and out.
use vstd::prelude::*;

verus! {

/// `String::push` puts the character at the end.
pub assume_specification[ String::push ](s: &mut String, c: char)
    ensures
        final(s)@ == old(s)@.push(c),
;

/// The texts of a list of strings.
pub open spec fn texts(v: Seq<String>) -> Seq<Seq<char>> {
    v.map_values(|s: String| s@)
}

/// The contents of a list of vectors.
pub open spec fn rows<T>(v: Seq<Vec<T>>) -> Seq<Seq<T>> {
    v.map_values(|r: Vec<T>| r@)
}

/// The characters of a string.
pub fn chars_of(s: &str) -> (r: Vec<char>)
    ensures
        r@ == s@,
{
    let mut out: Vec<char> = Vec::new();
    for c in it: s.chars()
        invariant
            out@ == s@.take(it.index() as int),
            it.seq() == s@,
    {
        out.push(c);
    }
    assert(s@.take(s@.len() as int) =~= s@);
    out
}

/// The string with these characters.
pub fn string_of(chars: &[char]) -> (r: String)
    ensures
        r@ == chars@,
{
    let mut out = String::new();
    let mut i: usize = 0;
    while i < chars.len()
        invariant
            i <= chars.len(),
            out@ == chars@.take(i as int),
        decreases chars.len() - i,
    {
        out.push(chars[i]);
        i += 1;
        assert(chars@.take(i as int) =~= chars@.take(i - 1).push(chars@[i - 1]));
    }
    assert(chars@.take(i as int) =~= chars@);
    out
}


/// Two texts are the same.
pub fn same_text(a: &str, b: &str) -> (r: bool)
    ensures
        r == (a@ == b@),
{
    a.to_owned() == b.to_owned()
}

////// Splitting

/// The characters with the Unicode property `White_Space`.
pub open spec fn is_whitespace(c: char) -> bool {
    ||| 0x9 <= c as u32 <= 0xd
    ||| c as u32 == 0x20
    ||| c as u32 == 0x85
    ||| c as u32 == 0xa0
    ||| c as u32 == 0x1680
    ||| 0x2000 <= c as u32 <= 0x200a
    ||| c as u32 == 0x2028
    ||| c as u32 == 0x2029
    ||| c as u32 == 0x202f
    ||| c as u32 == 0x205f
    ||| c as u32 == 0x3000
}

/// What a text is split at.
#[derive(Debug, Clone, Copy, PartialEq, Eq)]
pub enum Separator {
    Newline,
    Whitespace,
    Comma,
}

impl Separator {
    /// The text is split at this character.
    pub open spec fn splits(self, c: char) -> bool {
        match self {
            Separator::Newline => c == '\n',
            Separator::Whitespace => is_whitespace(c),
            Separator::Comma => c == ',',
        }
    }

    /// Whether the text is split at this character.
    pub fn splits_at(self, c: char) -> (r: bool)
        ensures
            r == self.splits(c),
            match self {
                Separator::Newline => r <==> c == '\n',
                Separator::Whitespace => r <==> {
                    ||| c == ' ' || c == '\t' || c == '\n' || c == '\u{b}' || c == '\u{c}'
                    ||| c == '\r' || c == '\u{85}' || c == '\u{a0}' || c == '\u{1680}'
                    ||| '\u{2000}' <= c <= '\u{200a}'
                    ||| c == '\u{2028}' || c == '\u{2029}' || c == '\u{202f}' || c == '\u{205f}'
                    ||| c == '\u{3000}'
                },
                Separator::Comma => r <==> c == ',',
            },
    {
        match self {
            Separator::Newline => c == '\n',
            Separator::Whitespace => {
                let u = c as u32;
                (0x9 <= u && u <= 0xd) || u == 0x20 || u == 0x85 || u == 0xa0 || u == 0x1680 || (
                0x2000 <= u && u <= 0x200a) || u == 0x2028 || u == 0x2029 || u == 0x202f || u
                    == 0x205f || u == 0x3000
            },
            Separator::Comma => c == ',',
        }
    }
}

/// The parts of `s` between the separators; a separator more is a part more.
pub open spec fn pieces(s: Seq<char>, sep: Separator) -> Seq<Seq<char>>
    decreases s.len(),
{
    if s.len() == 0 {
        seq![Seq::empty()]
    } else {
        let init = pieces(s.drop_last(), sep);
        if sep.splits(s.last()) {
            init.push(Seq::empty())
        } else {
            init.drop_last().push(init.last().push(s.last()))
        }
    }
}

/// The sequences that are not empty, in order.
pub open spec fn nonempty<T>(s: Seq<Seq<T>>) -> Seq<Seq<T>>
    decreases s.len(),
{
    if s.len() == 0 {
        Seq::empty()
    } else if s.last().len() == 0 {
        nonempty(s.drop_last())
    } else {
        nonempty(s.drop_last()).push(s.last())
    }
}

/// The parts of a text that whitespace separates.
pub open spec fn words(s: Seq<char>) -> Seq<Seq<char>> {
    nonempty(pieces(s, Separator::Whitespace))
}

/// Splits a text at every separator.
pub fn split_at(chars: &[char], sep: Separator) -> (r: Vec<Vec<char>>)
    ensures
        rows(r@) == pieces(chars@, sep),
{
    let mut out: Vec<Vec<char>> = Vec::new();
    let mut cur: Vec<char> = Vec::new();
    let mut i: usize = 0;
    assert(rows(out@).push(cur@) =~= pieces(chars@.take(0), sep));
    while i < chars.len()
        invariant
            i <= chars.len(),
            rows(out@).push(cur@) == pieces(chars@.take(i as int), sep),
        decreases chars.len() - i,
    {
        let c = chars[i];
        let ghost before = rows(out@);
        let ghost piece = cur@;
        i += 1;
        proof {
            assert(chars@.take(i as int).drop_last() =~= chars@.take(i - 1));
            assert(chars@.take(i as int).last() == c);
            assert(before.push(piece).drop_last() =~= before);
        }
        if sep.splits_at(c) {
            out.push(cur);
            cur = Vec::new();
            assert(rows(out@) =~= before.push(piece));
            assert(rows(out@).push(cur@) =~= before.push(piece).push(Seq::empty()));
        } else {
            cur.push(c);
        }
    }
    let ghost before = rows(out@);
    out.push(cur);
    assert(rows(out@) =~= before.push(cur@));
    assert(chars@.take(i as int) =~= chars@);
    out
}

/// Splits a text at every separator and leaves out the empty parts.
pub fn split_nonempty(chars: &[char], sep: Separator) -> (r: Vec<Vec<char>>)
    ensures
        rows(r@) == nonempty(pieces(chars@, sep)),
{
    let mut out: Vec<Vec<char>> = Vec::new();
    let mut cur: Vec<char> = Vec::new();
    let mut i: usize = 0;
    let ghost mut closed: Seq<Seq<char>> = Seq::empty();
    assert(closed.push(cur@) =~= pieces(chars@.take(0), sep));
    assert(rows(out@) =~= nonempty(closed));
    while i < chars.len()
        invariant
            i <= chars.len(),
            closed.push(cur@) == pieces(chars@.take(i as int), sep),
            rows(out@) == nonempty(closed),
        decreases chars.len() - i,
    {
        let c = chars[i];
        let ghost before = rows(out@);
        let ghost piece = cur@;
        i += 1;
        proof {
            assert(chars@.take(i as int).drop_last() =~= chars@.take(i - 1));
            assert(chars@.take(i as int).last() == c);
            assert(closed.push(piece).drop_last() =~= closed);
        }
        if sep.splits_at(c) {
            if cur.len() > 0 {
                out.push(cur);
                assert(rows(out@) =~= before.push(piece));
            }
            cur = Vec::new();
            proof {
                closed = closed.push(piece);
            }
            assert(closed.push(cur@) =~= closed.push(Seq::empty()));
        } else {
            cur.push(c);
        }
    }
    let ghost before = rows(out@);
    let ghost piece = cur@;
    proof {
        assert(chars@.take(i as int) =~= chars@);
        assert(closed.push(piece).drop_last() =~= closed);
    }
    if cur.len() > 0 {
        out.push(cur);
        assert(rows(out@) =~= before.push(piece));
    }
    out
}

////// Numbers

/// The character is a decimal digit.
pub open spec fn is_digit(c: char) -> bool {
    '0' <= c <= '9'
}

/// The number that a sequence of decimal digits writes.
pub open spec fn digits_value(s: Seq<char>) -> Option<int>
    decreases s.len(),
{
    if s.len() == 0 {
        Some(0)
    } else {
        match digits_value(s.drop_last()) {
            Some(v) if is_digit(s.last()) => Some(v * 10 + (s.last() as int - '0' as int)),
            _ => None,
        }
    }
}

/// The number that a text writes: decimal digits with an optional plus sign in front, and small
/// enough to be held.
pub open spec fn parsed_number(s: Seq<char>) -> Option<usize> {
    let t = if s.len() > 0 && s[0] == '+' {
        s.skip(1)
    } else {
        s
    };
    match digits_value(t) {
        Some(v) if t.len() > 0 && v <= usize::MAX => Some(v as usize),
        _ => None,
    }
}

proof fn lemma_digits_prefix(s: Seq<char>, n: int)
    requires
        0 <= n <= s.len(),
    ensures
        digits_value(s.take(n)) is None ==> digits_value(s) is None,
        digits_value(s.take(n)) matches Some(v) ==> v >= 0 && (digits_value(s) matches Some(w) ==> w
            >= v),
    decreases s.len() + (s.len() - n),
{
    if n < s.len() {
        lemma_digits_prefix(s, n + 1);
        assert(s.take(n + 1).drop_last() =~= s.take(n));
        lemma_digits_nonnegative(s.take(n));
    } else {
        assert(s.take(n) =~= s);
        lemma_digits_nonnegative(s);
    }
}

proof fn lemma_digits_nonnegative(s: Seq<char>)
    ensures
        digits_value(s) matches Some(v) ==> v >= 0,
    decreases s.len(),
{
    if s.len() > 0 {
        lemma_digits_nonnegative(s.drop_last());
    }
}

/// Reads a number.
pub fn parse_number(chars: &[char]) -> (r: Option<usize>)
    ensures
        r == parsed_number(chars@),
{
    let start: usize = if chars.len() > 0 && chars[0] == '+' {
        1
    } else {
        0
    };
    let ghost t = if chars@.len() > 0 && chars@[0] == '+' {
        chars@.skip(1)
    } else {
        chars@
    };
    assert(t =~= chars@.skip(start as int));
    if start >= chars.len() {
        return None;
    }
    let mut value: usize = 0;
    let mut i: usize = start;
    assert(t.take(0) =~= Seq::empty());
    while i < chars.len()
        invariant
            start <= i <= chars.len(),
            t == chars@.skip(start as int),
            t.len() > 0,
            parsed_number(chars@) == (match digits_value(t) {
                Some(v) if t.len() > 0 && v <= usize::MAX => Some(v as usize),
                _ => None,
            }),
            digits_value(t.take(i - start)) == Some(value as int),
        decreases chars.len() - i,
    {
        let c = chars[i];
        i += 1;
        proof {
            assert(t.take(i - start).drop_last() =~= t.take(i - 1 - start));
            assert(t.take(i - start).last() == c);
            lemma_digits_prefix(t, i - start);
        }
        if !('0' <= c && c <= '9') {
            return None;
        }
        let digit: usize = (c as u32 - '0' as u32) as usize;
        match value.checked_mul(10) {
            None => {
                return None;
            },
            Some(v) => {
                match v.checked_add(digit) {
                    None => {
                        return None;
                    },
                    Some(w) => {
                        value = w;
                    },
                }
            },
        }
    }
    assert(t.take(i - start) =~= t);
    Some(value)
}

/// The decimal digit for a number below ten.
pub open spec fn digit_char(d: int) -> char {
    ('0' as int + d) as char
}

/// A number in decimal.
pub open spec fn decimal(n: nat) -> Seq<char>
    decreases n,
{
    if n < 10 {
        seq![digit_char(n as int)]
    } else {
        decimal(n / 10).push(digit_char((n % 10) as int))
    }
}

/// Writes a number in decimal.
pub fn decimal_string(n: u64) -> (r: String)
    ensures
        r@ == decimal(n as nat),
    decreases n,
{
    let mut out = if n < 10 {
        String::new()
    } else {
        decimal_string(n / 10)
    };
    let digit: u8 = '0' as u8 + (n % 10) as u8;
    out.push(digit as char);
    assert(out@ =~= decimal(n as nat));
    out
}

////// Joining

/// The parts one after the other, with a separator between them.
pub open spec fn joined(parts: Seq<Seq<char>>, sep: Seq<char>) -> Seq<char>
    decreases parts.len(),
{
    if parts.len() == 0 {
        Seq::empty()
    } else if parts.len() == 1 {
        parts[0]
    } else {
        joined(parts.drop_last(), sep) + sep + parts.last()
    }
}

/// Writes the parts one after the other, with a separator between them.
pub fn join(parts: &[String], sep: &str) -> (r: String)
    ensures
        r@ == joined(texts(parts@), sep@),
{
    let ghost all = texts(parts@);
    let mut out = String::new();
    let mut i: usize = 0;
    while i < parts.len()
        invariant
            i <= parts.len(),
            all == texts(parts@),
            out@ == joined(all.take(i as int), sep@),
        decreases parts.len() - i,
    {
        proof {
            assert(all.take(i + 1).drop_last() =~= all.take(i as int));
            assert(all.take(i + 1).last() == parts@[i as int]@);
        }
        if i > 0 {
            out.append(sep);
        }
        out.append(parts[i].as_str());
        assert(out@ =~= joined(all.take(i + 1), sep@));
        i += 1;
    }
    assert(all.take(i as int) =~= all);
    out
}

////// Letter case

/// What `str::to_lowercase` makes of a text.
pub uninterp spec fn lowercase(s: Seq<char>) -> Seq<char>;

/// The text has ASCII characters only.
pub open spec fn is_ascii_text(s: Seq<char>) -> bool {
    forall|i: int| 0 <= i < s.len() ==> (#[trigger] s[i] as int) < 128
}

/// The lower case of an ASCII character.
pub open spec fn ascii_lower(c: char) -> char {
    if 'A' <= c <= 'Z' {
        (c as int + 32) as char
    } else {
        c
    }
}

/// The lower case of an ASCII text.
pub open spec fn ascii_lower_text(s: Seq<char>) -> Seq<char> {
    s.map_values(|c: char| ascii_lower(c))
}

/// `str::to_lowercase` gives the same text for the same text, and turns the ASCII capitals of an
/// ASCII text into small letters and leaves its other characters alone. What it does to other
/// texts (it follows the Unicode tables) is only given a name.
pub assume_specification[ str::to_lowercase ](s: &str) -> (r: String)
    ensures
        r@ == lowercase(s@),
        is_ascii_text(s@) ==> r@ == ascii_lower_text(s@),
;

/// Puts texts one after the other.
pub fn concat3(a: &str, b: &str, c: &str) -> (r: String)
    ensures
        r@ == a@ + b@ + c@,
{
    let mut out = a.to_owned();
    out.append(b);
    out.append(c);
    out
}

} // verus!
