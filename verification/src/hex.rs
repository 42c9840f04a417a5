//! Bytes in hexadecimal.
use vstd::prelude::*;

verus! {

/// The small hexadecimal digit of a number below sixteen.
pub open spec fn hex_digit(d: int) -> char {
    if d < 10 {
        ('0' as int + d) as char
    } else {
        ('a' as int + d - 10) as char
    }
}

/// The four bits of `bytes` that stand at place `i`, the upper half of a byte before the lower.
pub open spec fn nibble(bytes: Seq<u8>, i: int) -> int {
    if i % 2 == 0 {
        bytes[i / 2] as int / 16
    } else {
        bytes[i / 2] as int % 16
    }
}

/// Two small hexadecimal digits for each byte.
pub open spec fn hex_text(bytes: Seq<u8>) -> Seq<char> {
    Seq::new(2 * bytes.len(), |i: int| hex_digit(nibble(bytes, i)))
}

/// The value of a hexadecimal digit, of either case.
pub open spec fn hex_value(c: char) -> Option<int> {
    if '0' <= c <= '9' {
        Some(c as int - '0' as int)
    } else if 'a' <= c <= 'f' {
        Some(c as int - 'a' as int + 10)
    } else if 'A' <= c <= 'F' {
        Some(c as int - 'A' as int + 10)
    } else {
        None
    }
}

/// The character is a hexadecimal digit.
pub open spec fn is_hex(c: char) -> bool {
    hex_value(c) is Some
}

/// Reads a hexadecimal digit.
pub fn digit_value(c: char) -> (r: Option<u8>)
    ensures
        match r {
            Some(d) => hex_value(c) == Some(d as int) && d < 16,
            None => hex_value(c) is None,
        },
        match r {
            Some(d) => d < 16 && (c == "0123456789abcdef"@[d as int] || c
                == "0123456789ABCDEF"@[d as int]),
            None => !"0123456789abcdef"@.contains(c) && !"0123456789ABCDEF"@.contains(c),
        },
{
    proof {
        hex_digits_and_their_values(c, 0);
    }
    if '0' <= c && c <= '9' {
        Some(c as u8 - '0' as u8)
    } else if 'a' <= c && c <= 'f' {
        Some(c as u8 - 'a' as u8 + 10)
    } else if 'A' <= c && c <= 'F' {
        Some(c as u8 - 'A' as u8 + 10)
    } else {
        None
    }
}

/// Writes a number below sixteen as a hexadecimal digit.
pub fn digit_char_of(d: u8) -> (r: char)
    requires
        d < 16,
    ensures
        r == hex_digit(d as int),
        r == "0123456789abcdef"@[d as int],
{
    proof {
        hex_digits_and_their_values('0', d as int);
    }
    if d < 10 {
        ('0' as u8 + d) as char
    } else {
        ('a' as u8 + (d - 10)) as char
    }
}

/// Writes each byte as two small hexadecimal digits.
pub fn hex_lower(bytes: &[u8]) -> (r: String)
    ensures
        r@ == hex_text(bytes@),
        r@.len() == 2 * bytes@.len(),
        forall|i: int|
            0 <= i < bytes@.len() ==> r@[2 * i] == "0123456789abcdef"@[(#[trigger] bytes@[i]) as int
                / 16] && r@[2 * i + 1] == "0123456789abcdef"@[bytes@[i] as int % 16],
{
    let mut s = String::new();
    let mut i: usize = 0;
    while i < bytes.len()
        invariant
            i <= bytes.len(),
            s@ =~= hex_text(bytes@).take(2 * i),
        decreases bytes.len() - i,
    {
        let b = bytes[i];
        s.push(digit_char_of(b / 16));
        s.push(digit_char_of(b % 16));
        proof {
            let all = hex_text(bytes@);
            assert((2 * i) / 2 == i && (2 * i + 1) / 2 == i);
            assert((2 * i) % 2 == 0 && (2 * i + 1) % 2 == 1);
            assert(all[2 * i] == hex_digit(b as int / 16));
            assert(all[2 * i + 1] == hex_digit(b as int % 16));
        }
        i += 1;
    }
    assert(hex_text(bytes@).take(2 * bytes@.len() as int) =~= hex_text(bytes@));
    proof {
        assert forall|i: int| 0 <= i < bytes@.len() implies s@[2 * i] == "0123456789abcdef"@[(
        #[trigger] bytes@[i]) as int / 16] && s@[2 * i + 1] == "0123456789abcdef"@[bytes@[i] as int
            % 16] by {
            bytes_are_written_in_pairs(bytes@, i);
        }
    }
    s
}

/// The sixteen digits and their values belong together: a digit that is written is the small one of
/// its value, and a digit that is read, small or capital, has the value of its place in the row of
/// digits. Nothing else is a digit.
pub proof fn hex_digits_and_their_values(c: char, d: int)
    ensures
        0 <= d < 16 ==> hex_digit(d) == "0123456789abcdef"@[d],
        0 <= d < 16 ==> hex_value("0123456789abcdef"@[d]) == Some(d),
        0 <= d < 16 ==> hex_value("0123456789ABCDEF"@[d]) == Some(d),
        hex_value(c) matches Some(v) ==> 0 <= v < 16 && (c == "0123456789abcdef"@[v] || c
            == "0123456789ABCDEF"@[v]),
        hex_value(c) is None ==> !"0123456789abcdef"@.contains(c) && !"0123456789ABCDEF"@.contains(
            c,
        ),
        is_hex(c) <==> hex_value(c) is Some,
{
    reveal_strlit("0123456789abcdef");
    reveal_strlit("0123456789ABCDEF");
}

/// Each byte is written as the digit of its upper half and, behind it, that of its lower half.
pub proof fn bytes_are_written_in_pairs(bytes: Seq<u8>, i: int)
    requires
        0 <= i < bytes.len(),
    ensures
        hex_text(bytes).len() == 2 * bytes.len(),
        hex_text(bytes)[2 * i] == "0123456789abcdef"@[bytes[i] as int / 16],
        hex_text(bytes)[2 * i + 1] == "0123456789abcdef"@[bytes[i] as int % 16],
        nibble(bytes, 2 * i) == bytes[i] as int / 16,
        nibble(bytes, 2 * i + 1) == bytes[i] as int % 16,
{
    assert((2 * i) / 2 == i && (2 * i + 1) / 2 == i);
    assert((2 * i) % 2 == 0 && (2 * i + 1) % 2 == 1);
    hex_digits_and_their_values('0', bytes[i] as int / 16);
    hex_digits_and_their_values('0', bytes[i] as int % 16);
}

/// The byte that two characters stand for. As in `u8::from_str_radix`, a plus sign may take the
/// place of the first digit.
pub open spec fn hex_byte(a: char, b: char) -> Option<int> {
    match (hex_value(a), hex_value(b)) {
        (Some(x), Some(y)) => Some(16 * x + y),
        (None, Some(y)) => if a == '+' {
            Some(y)
        } else {
            None
        },
        _ => None,
    }
}

/// Reads a byte.
pub fn read_byte(a: char, b: char) -> (r: Option<u8>)
    ensures
        match r {
            Some(v) => hex_byte(a, b) == Some(v as int),
            None => hex_byte(a, b) is None,
        },
        match (hex_value(a), hex_value(b)) {
            (Some(x), Some(y)) => r matches Some(v) && v == 16 * x + y,
            (None, Some(y)) => if a == '+' {
                r matches Some(v) && v == y
            } else {
                r is None
            },
            (_, None) => r is None,
        },
{
    match (digit_value(a), digit_value(b)) {
        (Some(x), Some(y)) => Some(16 * x + y),
        (None, Some(y)) => if a == '+' {
            Some(y)
        } else {
            None
        },
        _ => None,
    }
}

/// Reading a byte undoes writing it.
pub proof fn byte_round_trip(v: u8)
    ensures
        hex_byte(hex_digit(v as int / 16), hex_digit(v as int % 16)) == Some(v as int),
{
    let x = v as int / 16;
    let y = v as int % 16;
    assert(hex_value(hex_digit(x)) == Some(x));
    assert(hex_value(hex_digit(y)) == Some(y));
    assert(16 * x + y == v);
}

} // verus!
