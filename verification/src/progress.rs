//! The progress line.
use vstd::prelude::*;

use crate::text::{chars_of, concat3, decimal, decimal_string, digit_char, string_of};

verus! {

/// Whether to report progress after this many phrases.
pub fn report_due(count: usize, interval: usize) -> (r: bool)
    requires
        interval > 0,
    ensures
        r <==> count > 0 && count % interval == 0,
{
    count > 0 && count % interval == 0
}

/// The number of columns to assume when the terminal does not tell.
pub const DEFAULT_WIDTH: usize = 100;

/// The number of columns of the terminal, given what it reported.
pub fn usable_width(reported: Option<u16>) -> (r: usize)
    ensures
        r == (match reported {
            Some(columns) => if columns > 0 {
                columns as int
            } else {
                DEFAULT_WIDTH as int
            },
            None => DEFAULT_WIDTH as int,
        }),
        r == match reported {
            Some(columns) => if columns > 0 {
                columns as int
            } else {
                100
            },
            None => 100,
        },
{
    match reported {
        Some(columns) => if columns > 0 {
            columns as usize
        } else {
            DEFAULT_WIDTH
        },
        None => DEFAULT_WIDTH,
    }
}

/// The number of cells of the bar beside `text` other characters: what is left of the line when
/// the brackets, the space before them and one column at the end are taken off, and no more than
/// `limit`.
pub open spec fn bar_cells(width: int, text: int, limit: int) -> int {
    let room = width - (text + 4);
    if room <= 0 {
        0
    } else if room <= limit {
        room
    } else {
        limit
    }
}

/// Works out the number of cells of the bar.
pub fn bar_width(width: usize, text: usize, limit: usize) -> (r: usize)
    ensures
        r == bar_cells(width as int, text as int, limit as int),
        r <= limit,
        r > 0 ==> text + 4 + r <= width,
        r < limit ==> width <= text + 4 + r,
{
    if width <= text || width - text <= 4 {
        0
    } else if width - text - 4 <= limit {
        width - text - 4
    } else {
        limit
    }
}

/// The bar: full cells, then empty ones, in brackets. There is none without cells.
pub open spec fn bar(filled: int, cells: nat) -> Seq<char> {
    if cells == 0 {
        Seq::empty()
    } else {
        " ["@ + Seq::new(
            cells,
            |i: int|
                if i < filled {
                    '█'
                } else {
                    '░'
                },
        ) + "]"@
    }
}

/// Draws the bar.
pub fn bar_text(filled: usize, cells: usize) -> (r: String)
    ensures
        r@ == bar(filled as int, cells as nat),
        cells == 0 ==> r@.len() == 0,
        cells > 0 ==> {
            &&& r@.len() == cells + 3
            &&& r@[0] == ' '
            &&& r@[1] == '['
            &&& forall|i: int|
                0 <= i < cells ==> #[trigger] r@[2 + i] == if i < filled {
                    '█'
                } else {
                    '░'
                }
            &&& r@[cells + 2] == ']'
        },
{
    proof {
        reveal_strlit(" [");
        reveal_strlit("]");
    }
    if cells == 0 {
        return String::new();
    }
    let mut inner = String::new();
    let ghost all = Seq::new(
        cells as nat,
        |i: int|
            if i < filled {
                '█'
            } else {
                '░'
            },
    );
    let mut i: usize = 0;
    while i < cells
        invariant
            i <= cells,
            all.len() == cells,
            forall|k: int|
                0 <= k < cells ==> #[trigger] all[k] == (if k < filled {
                    '█'
                } else {
                    '░'
                }),
            inner@ == all.take(i as int),
        decreases cells - i,
    {
        if i < filled {
            inner.push('█');
        } else {
            inner.push('░');
        }
        assert(all.take(i + 1) =~= all.take(i as int).push(all[i as int]));
        i += 1;
    }
    assert(all.take(i as int) =~= all);
    concat3(" [", inner.as_str(), "]")
}

/// A progress line whose texts fit in the terminal still fits with its bar.
pub proof fn bar_fits(width: int, text: int, limit: int, filled: int)
    requires
        0 <= text <= width,
        0 <= limit,
    ensures
        text + bar(filled, bar_cells(width, text, limit) as nat).len() <= width,
{
    reveal_strlit(" [");
    reveal_strlit("]");
}

/// As much of a text as fits in `width` columns.
pub open spec fn cut(s: Seq<char>, width: int) -> Seq<char> {
    if s.len() <= width {
        s
    } else {
        s.take(width)
    }
}

/// The progress line: the texts with the bar behind the first, cut off at the width of the
/// terminal.
pub open spec fn whole_line(
    fixed: Seq<char>,
    percent: Seq<char>,
    eta: Seq<char>,
    filled: int,
    width: int,
    limit: int,
) -> Seq<char> {
    let text = fixed.len() + percent.len() + eta.len();
    cut(fixed + bar(filled, bar_cells(width, text as int, limit) as nat) + percent + eta, width)
}

/// Puts the progress line together. It is never wider than the terminal: the bar takes what room
/// the texts leave, and texts that do not fit are cut off.
pub fn progress_line(
    fixed: &str,
    percent: &str,
    eta: &str,
    filled: usize,
    width: usize,
    limit: usize,
) -> (r: String)
    ensures
        r@ == whole_line(
            fixed@,
            percent@,
            eta@,
            filled as int,
            width as int,
            limit as int,
        ),
        r@.len() <= width,
        fixed@.len() + percent@.len() + eta@.len() <= width ==> r@ == fixed@ + bar(
            filled as int,
            bar_cells(
                width as int,
                (fixed@.len() + percent@.len() + eta@.len()) as int,
                limit as int,
            ) as nat,
        ) + percent@ + eta@,
        ({
            let text = fixed@.len() + percent@.len() + eta@.len();
            let room = width - text - 4;
            let cells = if room <= 0 {
                0
            } else if room <= limit {
                room
            } else {
                limit as int
            };
            let drawn = if cells > 0 {
                " ["@ + Seq::new(
                    cells as nat,
                    |i: int|
                        if i < filled {
                            '█'
                        } else {
                            '░'
                        },
                ) + "]"@
            } else {
                Seq::empty()
            };
            let line = fixed@ + drawn + percent@ + eta@;
            &&& line.len() <= width ==> r@ == line
            &&& line.len() > width ==> r@ == line.take(width as int)
        }),
{
    let texts = concat3(fixed, percent, eta);
    let text = chars_of(texts.as_str()).len();
    let drawn = bar_text(filled, bar_width(width, text, limit));
    let mut line = concat3(fixed, drawn.as_str(), percent);
    line.append(eta);
    proof {
        if text <= width {
            bar_fits(width as int, text as int, limit as int, filled as int);
        }
    }
    let chars = chars_of(line.as_str());
    if chars.len() <= width {
        line
    } else {
        let kept = vstd::slice::slice_subrange(chars.as_slice(), 0, width);
        assert(kept@ =~= line@.take(width as int));
        string_of(kept)
    }
}

/// How many phrases are still to come, when the total is known and not yet reached.
pub fn phrases_left(total: Option<usize>, count: usize) -> (r: Option<usize>)
    ensures
        match r {
            Some(left) => total matches Some(t) && t > count && left == t - count,
            None => !(total matches Some(t) && t > count),
        },
{
    match total {
        Some(t) => if t > count {
            Some(t - count)
        } else {
            None
        },
        None => None,
    }
}

/// A number below a hundred in two digits.
pub open spec fn two_digits(n: nat) -> Seq<char> {
    seq![digit_char((n / 10) as int), digit_char((n % 10) as int)]
}

/// A number below a hundred is written as its tens and its ones.
pub proof fn two_digits_are_tens_and_ones(a: nat, b: nat)
    requires
        a < 10,
        b < 10,
    ensures
        two_digits(10 * a + b) == seq!["0123456789"@[a as int], "0123456789"@[b as int]],
{
    reveal_strlit("0123456789");
    let n = 10 * a + b;
    assert(n / 10 == a && n % 10 == b);
    assert(digit_char(a as int) == "0123456789"@[a as int]);
    assert(digit_char(b as int) == "0123456789"@[b as int]);
}

/// A duration in hours, minutes and seconds, without those of the larger units that are zero.
pub open spec fn duration_text(s: nat) -> Seq<char> {
    if s >= 3600 {
        decimal(s / 3600) + "h"@ + two_digits(s % 3600 / 60) + "m"@ + two_digits(s % 60) + "s"@
    } else if s >= 60 {
        decimal(s / 60) + "m"@ + two_digits(s % 60) + "s"@
    } else {
        decimal(s) + "s"@
    }
}

fn two_digit_string(n: u64) -> (r: String)
    requires
        n < 100,
    ensures
        r@ == two_digits(n as nat),
{
    let mut out = String::new();
    let tens: u8 = '0' as u8 + (n / 10) as u8;
    let ones: u8 = '0' as u8 + (n % 10) as u8;
    out.push(tens as char);
    out.push(ones as char);
    assert(out@ =~= two_digits(n as nat));
    out
}

/// Writes a duration, given in whole seconds.
pub fn fmt_duration(s: u64) -> (r: String)
    ensures
        r@ == duration_text(s as nat),
        s < 60 ==> r@ == decimal(s as nat) + "s"@,
        60 <= s < 3600 ==> exists|m: nat, t: nat|
            s == 60 * m + t && t < 60 && r@ == #[trigger] decimal(m) + "m"@
                + #[trigger] two_digits(t) + "s"@,
        3600 <= s ==> exists|h: nat, m: nat, t: nat|
            s == 3600 * h + 60 * m + t && m < 60 && t < 60 && r@ == #[trigger] decimal(h) + "h"@
                + #[trigger] two_digits(m) + "m"@ + #[trigger] two_digits(t) + "s"@,
{
    proof {
        let n = s as nat;
        if 60 <= s < 3600 {
            assert(n == 60 * (n / 60) + n % 60);
        }
        if 3600 <= s {
            assert(n == 3600 * (n / 3600) + 60 * (n % 3600 / 60) + n % 60);
        }
    }
    if s >= 3600 {
        let mut out = decimal_string(s / 3600);
        out.append("h");
        out.append(two_digit_string(s % 3600 / 60).as_str());
        out.append("m");
        out.append(two_digit_string(s % 60).as_str());
        out.append("s");
        out
    } else if s >= 60 {
        let mut out = decimal_string(s / 60);
        out.append("m");
        out.append(two_digit_string(s % 60).as_str());
        out.append("s");
        out
    } else {
        let mut out = decimal_string(s);
        out.append("s");
        out
    }
}

} // verus!
