//! Laws of addresses.
use vstd::prelude::*;

use crate::address::{
    all_hex, ascii_upper, checksummed, eth_body, eth_byte, eth_bytes, eth_normal, eth_text,
    is_eth_normal, lemma_hex_width, normal_form, normal_form_usable,
};
use crate::hex::{byte_round_trip, hex_digit, hex_text, hex_value, is_hex, nibble};
use crate::text::{ascii_lower, ascii_lower_text};

verus! {

/// An address in normal form stays as it is.
pub proof fn normal_form_is_kept(s: Seq<char>)
    requires
        is_eth_normal(s),
    ensures
        eth_normal(s) == Ok::<Seq<char>, Seq<char>>(s),
{
    let body = s.skip(2);
    assert(eth_body(s) == body);
    assert forall|i: int| 0 <= i < body.len() implies is_hex(#[trigger] body[i]) by {
        assert(is_hex(s[i + 2]));
    }
    lemma_hex_width(body);
    reveal_strlit("0x");
    assert forall|i: int| 0 <= i < 42 implies ("0x"@ + ascii_lower_text(body))[i] == s[i] by {
        if i >= 2 {
            assert(is_hex(s[i]) && !('A' <= s[i] <= 'F'));
        }
    }
    assert("0x"@ + ascii_lower_text(body) =~= s);
}

/// Bringing an address into normal form twice is the same as once.
pub proof fn normalizing_is_idempotent(s: Seq<char>)
    requires
        eth_normal(s) is Ok,
    ensures
        eth_normal(eth_normal(s)->Ok_0) == eth_normal(s),
{
    normal_form(s);
    normal_form_is_kept(eth_normal(s)->Ok_0);
}

/// The `0x` in front of forty hexadecimal digits may be left out, or written with a capital.
pub proof fn prefix_is_optional(body: Seq<char>)
    requires
        body.len() == 40,
        all_hex(body),
    ensures
        eth_normal(body) == Ok::<Seq<char>, Seq<char>>("0x"@ + ascii_lower_text(body)),
        eth_normal("0x"@ + body) == eth_normal(body),
        eth_normal("0X"@ + body) == eth_normal(body),
{
    reveal_strlit("0x");
    reveal_strlit("0X");
    lemma_hex_width(body);
    assert(is_hex(body[1]));
    assert(("0x"@ + body).skip(2) =~= body);
    assert(("0X"@ + body).skip(2) =~= body);
}

/// Capitals make no difference: whatever hash chooses them, the address that is shown has the same
/// normal form as the address itself.
pub proof fn checksum_changes_case_only(s: Seq<char>, hash: Seq<u8>)
    requires
        is_eth_normal(s),
    ensures
        eth_normal("0x"@ + checksummed(s.skip(2), hash)) == Ok::<Seq<char>, Seq<char>>(s),
{
    let body = s.skip(2);
    let shown = checksummed(body, hash);
    assert forall|i: int| 0 <= i < 40 implies is_hex(#[trigger] shown[i]) && ascii_lower(shown[i])
        == body[i] by {
        assert(body[i] == s[i + 2]);
        assert(is_hex(s[i + 2]) && !('A' <= s[i + 2] <= 'F'));
        assert(shown[i] == body[i] || shown[i] == ascii_upper(body[i]));
    }
    assert(all_hex(shown));
    prefix_is_optional(shown);
    reveal_strlit("0x");
    assert forall|i: int| 0 <= i < 42 implies ("0x"@ + ascii_lower_text(shown))[i] == s[i] by {
        if i >= 2 {
            assert(ascii_lower(shown[i - 2]) == body[i - 2]);
        }
    }
    assert("0x"@ + ascii_lower_text(shown) =~= s);
}

/// The address that is derived from a hash is in normal form, and its digits stand for the last
/// twenty bytes of the hash.
pub proof fn derived_address_is_normal(hash: Seq<u8>)
    requires
        hash.len() == 32,
    ensures
        is_eth_normal(eth_text(hash)),
        eth_bytes(eth_text(hash)) == Some(hash.skip(12)),
{
    let bytes = hash.skip(12);
    let s = eth_text(hash);
    reveal_strlit("0x");
    assert forall|i: int| 2 <= i < 42 implies is_hex(#[trigger] s[i]) && !('A' <= s[i] <= 'F') by {
        let d = nibble(bytes, i - 2);
        assert(s[i] == hex_digit(d));
        assert(0 <= d < 16);
    }
    assert forall|i: int| 0 <= i < 20 implies #[trigger] eth_byte(s, i) == Some(
        bytes[i] as int,
    ) by {
        assert((2 * i) / 2 == i && (2 * i + 1) / 2 == i);
        assert((2 * i) % 2 == 0 && (2 * i + 1) % 2 == 1);
        assert(s[2 + 2 * i] == hex_digit(nibble(bytes, 2 * i)));
        assert(s[3 + 2 * i] == hex_digit(nibble(bytes, 2 * i + 1)));
        byte_round_trip(bytes[i]);
    }
    assert(Seq::new(20, |i: int| eth_byte(s, i)->0 as u8) =~= bytes);
}

/// An address in normal form is `0x` and the digits of the twenty bytes that it stands for.
pub proof fn normal_form_of_bytes(s: Seq<char>)
    requires
        is_eth_normal(s),
    ensures
        eth_bytes(s) is Some,
        s == "0x"@ + hex_text(eth_bytes(s)->0),
{
    normal_form_usable(s);
    reveal_strlit("0x");
    let bytes = eth_bytes(s)->0;
    let t = "0x"@ + hex_text(bytes);
    assert forall|i: int| 0 <= i < 42 implies #[trigger] t[i] == s[i] by {
        if i >= 2 {
            let j = (i - 2) / 2;
            assert(eth_byte(s, j) is Some);
            assert(bytes[j] == eth_byte(s, j)->0 as u8);
            let a = s[2 + 2 * j];
            let b = s[3 + 2 * j];
            assert(is_hex(a) && !('A' <= a <= 'F'));
            assert(is_hex(b) && !('A' <= b <= 'F'));
            let x = hex_value(a)->0;
            let y = hex_value(b)->0;
            assert(0 <= x < 16 && 0 <= y < 16);
            assert(bytes[j] == 16 * x + y);
            assert(bytes[j] as int / 16 == x && bytes[j] as int % 16 == y);
            assert(hex_digit(x) == a && hex_digit(y) == b);
        }
    }
    assert(t =~= s);
}

/// Two addresses in normal form are the same exactly when their twenty bytes are: comparing texts
/// and comparing bytes find the same phrases.
pub proof fn same_bytes_same_address(a: Seq<char>, b: Seq<char>)
    requires
        is_eth_normal(a),
        is_eth_normal(b),
    ensures
        a == b <==> eth_bytes(a) == eth_bytes(b),
{
    normal_form_of_bytes(a);
    normal_form_of_bytes(b);
}

} // verus!
