//! Addresses of the two coins: reading, checking and writing them.
use bitcoin::address::NetworkUnchecked;
use bitcoin::{Address, Network};
use sha3::{Digest, Keccak256};
use vstd::prelude::*;
use vstd::utf8::encode_utf8;

use crate::coin::Coin;
use crate::hex::{
    digit_value, hex_byte, hex_lower, hex_text, hex_value, is_hex, nibble, read_byte,
};
use crate::text::{ascii_lower_text, chars_of, concat3, is_ascii_text, is_digit};

verus! {

////// Ethereum

/// An address without its `0x`, if it has one.
pub open spec fn eth_body(s: Seq<char>) -> Seq<char> {
    if s.len() >= 2 && s[0] == '0' && (s[1] == 'x' || s[1] == 'X') {
        s.skip(2)
    } else {
        s
    }
}

/// A `0x` in front, of either case, is taken off, and nothing else is.
pub proof fn prefix_is_taken_off(s: Seq<char>)
    ensures
        s.len() >= 2 && s[0] == '0' && (s[1] == 'x' || s[1] == 'X') ==> s == seq!['0', s[1]]
            + eth_body(s),
        !(s.len() >= 2 && s[0] == '0' && (s[1] == 'x' || s[1] == 'X')) ==> eth_body(s) == s,
{
    if s.len() >= 2 && s[0] == '0' && (s[1] == 'x' || s[1] == 'X') {
        assert(s =~= seq!['0', s[1]] + eth_body(s));
    }
}

/// All characters are hexadecimal digits.
pub open spec fn all_hex(s: Seq<char>) -> bool {
    forall|i: int| 0 <= i < s.len() ==> is_hex(#[trigger] s[i])
}

/// The address in its normal form, or the message that says what is wrong with it.
pub open spec fn eth_normal(s: Seq<char>) -> Result<Seq<char>, Seq<char>> {
    let body = eth_body(s);
    if encode_utf8(body).len() != 40 {
        Err("Invalid ETH address (expected 40 hex chars): "@ + s)
    } else if !all_hex(body) {
        Err("Invalid ETH address (non-hex chars): "@ + s)
    } else {
        Ok("0x"@ + ascii_lower_text(body))
    }
}

/// Brings an address into the form `0x` and 40 small hexadecimal digits. It may have capitals, and
/// it may lack the `0x`.
pub fn normalize_eth_address(s: &str) -> (r: Result<String, String>)
    ensures
        match r {
            Ok(t) => eth_normal(s@) == Ok::<Seq<char>, Seq<char>>(t@),
            Err(message) => eth_normal(s@) == Err::<Seq<char>, Seq<char>>(message@),
        },
        ({
            let digits = forall|i: int|
                0 <= i < eth_body(s@).len() ==> hex_value(#[trigger] eth_body(s@)[i]) is Some;
            match r {
                Ok(t) => {
                    &&& eth_body(s@).len() == 40
                    &&& digits
                    &&& t@ == "0x"@ + ascii_lower_text(eth_body(s@))
                },
                Err(message) => if encode_utf8(eth_body(s@)).len() != 40 {
                    message@ == "Invalid ETH address (expected 40 hex chars): "@ + s@
                } else {
                    &&& !digits
                    &&& message@ == "Invalid ETH address (non-hex chars): "@ + s@
                },
            }
        }),
{
    let chars = chars_of(s);
    let prefixed = chars.len() >= 2 && chars[0] == '0' && (chars[1] == 'x' || chars[1] == 'X');
    let body: &str = if prefixed {
        s.substring_char(2, chars.len())
    } else {
        s
    };
    proof {
        assert(s@.subrange(0, s@.len() as int) =~= s@);
        if prefixed {
            assert(body@ =~= s@.skip(2));
        }
        assert(body@ == eth_body(s@));
    }
    if body.as_bytes().len() != 40 {
        let message = concat3("Invalid ETH address (expected 40 hex chars): ", s, "");
        proof {
            reveal_strlit("");
            assert(message@ =~= "Invalid ETH address (expected 40 hex chars): "@ + s@);
        }
        return Err(message);
    }
    let digits = chars_of(body);
    let mut i: usize = 0;
    while i < digits.len()
        invariant
            i <= digits.len(),
            digits@ == body@,
            body@ == eth_body(s@),
            encode_utf8(body@).len() == 40,
            forall|k: int| 0 <= k < i ==> is_hex(#[trigger] body@[k]),
        decreases digits.len() - i,
    {
        if digit_value(digits[i]).is_none() {
            let message = concat3("Invalid ETH address (non-hex chars): ", s, "");
            proof {
                reveal_strlit("");
                assert(!is_hex(body@[i as int]));
                assert(hex_value(eth_body(s@)[i as int]) is None);
                assert(message@ =~= "Invalid ETH address (non-hex chars): "@ + s@);
            }
            return Err(message);
        }
        i += 1;
    }
    assert(is_ascii_text(body@));
    proof {
        assert forall|i: int| 0 <= i < body@.len() implies hex_value(#[trigger] body@[i])
            is Some by {
            assert(is_hex(body@[i]));
        }
        lemma_hex_width(body@);
    }
    let lower = body.to_lowercase();
    let out = concat3("0x", lower.as_str(), "");
    proof {
        reveal_strlit("");
        assert(out@ =~= "0x"@ + ascii_lower_text(body@));
    }
    Ok(out)
}

/// What `sha3::Keccak256` makes of some bytes.
pub uninterp spec fn keccak256_of(data: Seq<u8>) -> Seq<u8>;

/// `sha3::Keccak256::digest` gives the Keccak-256 hash of the bytes: 32 bytes, and always the same
/// ones for the same input.
#[verifier::external_body]
fn keccak256(data: &[u8]) -> (r: Vec<u8>)
    ensures
        r@ == keccak256_of(data@),
        r@.len() == 32,
{
    Keccak256::digest(data).to_vec()
}

/// The capital of an ASCII character.
pub open spec fn ascii_upper(c: char) -> char {
    if 'a' <= c <= 'z' {
        (c as int - 32) as char
    } else {
        c
    }
}

/// The body with those characters as capitals where the hash has a large digit in the same place.
pub open spec fn checksummed(body: Seq<char>, hash: Seq<u8>) -> Seq<char> {
    Seq::new(
        body.len(),
        |i: int|
            if !is_digit(body[i]) && nibble(hash, i) >= 8 {
                ascii_upper(body[i])
            } else {
                body[i]
            },
    )
}

/// Writes the body of an address in the mixed case that a hash of it prescribes.
pub fn checksum_text(body: &str, hash: &[u8]) -> (r: String)
    requires
        forall|i: int|
            0 <= i < body@.len() && !is_digit(#[trigger] body@[i]) ==> i / 2 < hash@.len(),
    ensures
        r@ == "0x"@ + checksummed(body@, hash@),
        r@.len() == 2 + body@.len(),
        r@[0] == '0',
        r@[1] == 'x',
        forall|i: int|
            0 <= i < body@.len() ==> r@[2 + i] as int == if 'a' <= (#[trigger] body@[i]) <= 'z' && (
            if i % 2 == 0 {
                hash@[i / 2] as int / 16
            } else {
                hash@[i / 2] as int % 16
            }) >= 8 {
                body@[i] as int - 32
            } else {
                body@[i] as int
            },
{
    proof {
        reveal_strlit("0x");
    }
    let chars = chars_of(body);
    let mut out = "0x".to_owned();
    let ghost goal = checksummed(body@, hash@);
    let mut i: usize = 0;
    assert(out@ =~= "0x"@ + goal.take(0));
    while i < chars.len()
        invariant
            i <= chars.len(),
            chars@ == body@,
            goal == checksummed(body@, hash@),
            forall|i: int|
                0 <= i < body@.len() && !is_digit(#[trigger] body@[i]) ==> i / 2 < hash@.len(),
            out@ == "0x"@ + goal.take(i as int),
        decreases chars.len() - i,
    {
        let c = chars[i];
        let ghost before = out@;
        if '0' <= c && c <= '9' {
            out.push(c);
        } else {
            assert(!is_digit(body@[i as int]));
            let byte = hash[i / 2];
            let half: u8 = if i % 2 == 0 {
                byte / 16
            } else {
                byte % 16
            };
            if half >= 8 && 'a' <= c && c <= 'z' {
                out.push((c as u8 - 32) as char);
            } else {
                out.push(c);
            }
        }
        assert(out@ =~= before.push(goal[i as int]));
        assert(goal.take(i + 1) =~= goal.take(i as int).push(goal[i as int]));
        i += 1;
    }
    assert(goal.take(i as int) =~= goal);
    out
}

/// The text has something like `0x` in front, and no letter so far behind that the hash has no
/// digit for it.
pub open spec fn is_checksummable(s: Seq<char>) -> bool {
    &&& s.len() >= 2
    &&& (s[0] as int) < 128
    &&& (s[1] as int) < 128
    &&& forall|i: int| 2 <= i < s.len() && !is_digit(#[trigger] s[i]) ==> i < 66
}

/// An address in the mixed case of EIP-55: the hash of the body says which letters are capitals.
pub open spec fn eip55(s: Seq<char>) -> Seq<char> {
    "0x"@ + checksummed(s.skip(2), keccak256_of(encode_utf8(s.skip(2))))
}

/// Writes an address of the form `0x...` in the mixed case of EIP-55.
pub fn eth_checksum_address(lower: &str) -> (r: String)
    requires
        is_checksummable(lower@),
    ensures
        r@ == eip55(lower@),
        r@.len() == lower@.len(),
        r@[0] == '0',
        r@[1] == 'x',
        ({
            let hash = keccak256_of(encode_utf8(lower@.skip(2)));
            forall|i: int|
                2 <= i < lower@.len() ==> r@[i] as int == if 'a' <= (#[trigger] lower@[i]) <= 'z'
                    && (if i % 2 == 0 {
                    hash[(i - 2) / 2] as int / 16
                } else {
                    hash[(i - 2) / 2] as int % 16
                }) >= 8 {
                    lower@[i] as int - 32
                } else {
                    lower@[i] as int
                }
        }),
{
    let n = lower.unicode_len();
    let body = lower.substring_char(2, n);
    assert(body@ =~= lower@.skip(2));
    let hash = keccak256(body.as_bytes());
    assert forall|i: int| 0 <= i < body@.len() && !is_digit(#[trigger] body@[i]) implies i / 2
        < hash@.len() by {
        assert(body@[i] == lower@[i + 2]);
    }
    let out = checksum_text(body, &hash);
    proof {
        assert forall|i: int| 2 <= i < lower@.len() implies out@[i] as int == if 'a' <= (
        #[trigger] lower@[i]) <= 'z' && (if i % 2 == 0 {
            hash@[(i - 2) / 2] as int / 16
        } else {
            hash@[(i - 2) / 2] as int % 16
        }) >= 8 {
            lower@[i] as int - 32
        } else {
            lower@[i] as int
        } by {
            assert(body@[i - 2] == lower@[i]);
            assert((i - 2) % 2 == i % 2);
        }
    }
    out
}

/// The last twenty bytes of a hash, as an address.
pub open spec fn eth_text(hash: Seq<u8>) -> Seq<char> {
    "0x"@ + hex_text(hash.skip(12))
}

/// Writes the last bytes of a hash as an address.
pub fn eth_address_of_hash(hash: &[u8]) -> (r: String)
    requires
        hash@.len() >= 12,
    ensures
        r@ == eth_text(hash@),
        r@ == "0x"@ + hex_text(hash@.skip(12)),
{
    let tail = vstd::slice::slice_subrange(hash, 12, hash.len());
    assert(tail@ =~= hash@.skip(12));
    let digits = hex_lower(tail);
    let out = concat3("0x", digits.as_str(), "");
    proof {
        reveal_strlit("");
        assert(out@ =~= eth_text(hash@));
    }
    out
}

/// The address that belongs to a public key, given as the byte `04` and the point's coordinates.
pub open spec fn eth_address_of_key(public_key: Seq<u8>) -> Seq<char> {
    eth_text(keccak256_of(public_key.skip(1)))
}

/// Computes the address that belongs to a public key.
pub fn eth_address_from_key(public_key: &[u8]) -> (r: String)
    requires
        public_key@.len() >= 1,
    ensures
        r@ == eth_address_of_key(public_key@),
        r@ == "0x"@ + hex_text(keccak256_of(public_key@.skip(1)).skip(12)),
{
    let point = vstd::slice::slice_subrange(public_key, 1, public_key.len());
    assert(point@ =~= public_key@.skip(1));
    let hash = keccak256(point);
    eth_address_of_hash(&hash)
}

////// Bitcoin

/// What is read from the text of a Bitcoin address.
#[derive(Debug, Clone)]
pub struct AddressParts {
    /// The address as it is written.
    pub text: String,
    /// The script that pays to the address.
    pub script: Vec<u8>,
    /// The address belongs to the main network.
    pub mainnet: bool,
}

/// What `AddressParts` stands for.
pub struct AddressView {
    pub text: Seq<char>,
    pub script: Seq<u8>,
    pub mainnet: bool,
}

impl View for AddressParts {
    type V = AddressView;

    open spec fn view(&self) -> AddressView {
        AddressView { text: self.text@, script: self.script@, mainnet: self.mainnet }
    }
}

/// What the `bitcoin` crate reads from the text of an address.
pub uninterp spec fn address_read(text: Seq<char>) -> Option<AddressView>;

/// Parsing `bitcoin::Address` from a text gives an address or an error, and always the same one
/// for the same text. Of an address this gives the text that `Address::to_string` writes, the bytes
/// of `Address::script_pubkey`, and whether `Address::is_valid_for_network` accepts it for the main
/// network; of an error it gives nothing. A legacy address is written as it was read, since a text
/// in Base58 is the only one for its bytes.
#[verifier::external_body]
fn parse_address(text: &str) -> (r: Option<AddressParts>)
    ensures
        match r {
            Some(parts) => {
                &&& address_read(text@) == Some(parts@)
                &&& script_hash(parts.script@) is Some ==> parts.text@ == text@
            },
            None => address_read(text@) is None,
        },
{
    let unchecked = text.parse::<Address<NetworkUnchecked>>().ok()?;
    let mainnet = unchecked.is_valid_for_network(Network::Bitcoin);
    let address = unchecked.assume_checked();
    let script = address.script_pubkey().to_bytes();
    Some(AddressParts { text: address.to_string(), script, mainnet })
}

/// The 20-byte key hash in the script of a legacy address.
pub open spec fn script_hash(script: Seq<u8>) -> Option<Seq<u8>> {
    if script.len() == 25 && script[0] == 0x76 && script[1] == 0xa9 && script[2] == 0x14 {
        Some(script.subrange(3, 23))
    } else {
        None
    }
}

/// Takes the key hash out of the script of a legacy address.
pub fn p2pkh_hash160(script: &[u8]) -> (r: Result<[u8; 20], String>)
    ensures
        match r {
            Ok(h) => script_hash(script@) == Some(h@),
            Err(message) => {
                &&& script_hash(script@) is None
                &&& message@ == "Not a legacy P2PKH address"@
            },
        },
        r is Ok <==> script@.len() == 25 && script@[0] == 0x76 && script@[1] == 0xa9 && script@[2]
            == 0x14,
        r matches Ok(h) ==> h@ == script@.subrange(3, 23),
{
    if script.len() == 25 && script[0] == 0x76 && script[1] == 0xa9 && script[2] == 0x14 {
        let mut h = [0u8;20];
        let mut i: usize = 0;
        while i < 20
            invariant
                i <= 20,
                script@.len() == 25,
                forall|k: int| 0 <= k < i ==> #[trigger] h@[k] == script@[3 + k],
            decreases 20 - i,
        {
            h[i] = script[3 + i];
            i += 1;
        }
        assert(h@ =~= script@.subrange(3, 23));
        Ok(h)
    } else {
        Err("Not a legacy P2PKH address".to_owned())
    }
}

////// Targets

/// The address that is searched for.
#[derive(Debug, Clone)]
pub enum Target {
    /// A Bitcoin address.
    Btc(AddressParts),
    /// An Ethereum address in its normal form.
    Eth(String),
}

/// The text is `0x` and 40 small hexadecimal digits.
pub open spec fn is_eth_normal(s: Seq<char>) -> bool {
    &&& s.len() == 42
    &&& s[0] == '0'
    &&& s[1] == 'x'
    &&& forall|i: int|
        2 <= i < 42 ==> is_hex(#[trigger] s[i]) && !('A' <= s[i] <= 'F')
}

/// The text is long enough for an address and has ASCII characters only.
pub open spec fn is_eth_shaped(s: Seq<char>) -> bool {
    s.len() >= 42 && is_ascii_text(s)
}

/// The twenty bytes that the digits after `0x` stand for, if they all are digits.
pub open spec fn eth_bytes(s: Seq<char>) -> Option<Seq<u8>> {
    if forall|i: int| 0 <= i < 20 ==> (#[trigger] eth_byte(s, i)) is Some {
        Some(Seq::new(20, |i: int| eth_byte(s, i)->0 as u8))
    } else {
        None
    }
}

/// The byte that the `i`-th pair of digits after `0x` stands for.
pub open spec fn eth_byte(s: Seq<char>, i: int) -> Option<int> {
    hex_byte(s[2 + 2 * i], s[3 + 2 * i])
}

/// Reads the twenty bytes of an Ethereum address.
pub fn eth_hash20(s: &str) -> (r: Result<[u8; 20], String>)
    requires
        is_eth_shaped(s@),
    ensures
        match r {
            Ok(h) => eth_bytes(s@) == Some(h@),
            Err(message) => {
                &&& eth_bytes(s@) is None
                &&& message@ == "invalid ETH address hex: "@ + s@
            },
        },
        r is Ok <==> forall|i: int|
            0 <= i < 20 ==> hex_byte(#[trigger] s@[2 + 2 * i], s@[3 + 2 * i]) is Some,
        r matches Ok(h) ==> forall|i: int|
            0 <= i < 20 ==> hex_byte(s@[2 + 2 * i], s@[3 + 2 * i]) == Some(
                (#[trigger] h@[i]) as int,
            ),
{
    let chars = chars_of(s);
    let mut h = [0u8;20];
    let mut i: usize = 0;
    while i < 20
        invariant
            i <= 20,
            chars@ == s@,
            s@.len() >= 42,
            forall|k: int|
                0 <= k < i ==> (#[trigger] eth_byte(s@, k)) == Some(h@[k] as int),
        decreases 20 - i,
    {
        match read_byte(chars[2 + 2 * i], chars[3 + 2 * i]) {
            Some(b) => {
                h[i] = b;
            },
            None => {
                let message = concat3("invalid ETH address hex: ", s, "");
                proof {
                    reveal_strlit("");
                    assert(eth_byte(s@, i as int) is None);
                    assert(hex_byte(s@[2 + 2 * i], s@[3 + 2 * i]) is None);
                    assert(message@ =~= "invalid ETH address hex: "@ + s@);
                }
                return Err(message);
            },
        }
        i += 1;
    }
    assert(h@ =~= Seq::new(20, |i: int| eth_byte(s@, i)->0 as u8));
    proof {
        assert forall|i: int| 0 <= i < 20 implies hex_byte(
            #[trigger] s@[2 + 2 * i],
            s@[3 + 2 * i],
        ) is Some by {
            assert(eth_byte(s@, i) is Some);
        }
        assert forall|i: int| 0 <= i < 20 implies hex_byte(s@[2 + 2 * i], s@[3 + 2 * i]) == Some(
            (#[trigger] h@[i]) as int,
        ) by {
            assert(eth_byte(s@, i) == Some(h@[i] as int));
        }
    }
    Ok(h)
}

impl Target {
    /// The text that derived addresses are compared with.
    pub open spec fn compare_text(self) -> Seq<char> {
        match self {
            Target::Btc(a) => a.text@,
            Target::Eth(s) => s@,
        }
    }

    /// The text to show: an Ethereum address with its checksum.
    pub open spec fn display_text(self) -> Seq<char> {
        match self {
            Target::Btc(a) => a.text@,
            Target::Eth(s) => eip55(s@),
        }
    }

    /// Writes the address to show it.
    pub fn as_display_string(&self) -> (r: String)
        requires
            self matches Target::Eth(s) ==> is_checksummable(s@),
        ensures
            r@ == self.display_text(),
            self matches Target::Btc(a) ==> r@ == a.text@,
            self matches Target::Eth(s) ==> r@ == "0x"@ + checksummed(
                s@.skip(2),
                keccak256_of(encode_utf8(s@.skip(2))),
            ),
    {
        match self {
            Target::Btc(a) => a.text.clone(),
            Target::Eth(s) => eth_checksum_address(s.as_str()),
        }
    }

    /// The text that derived addresses are compared with.
    pub fn as_compare_string(&self) -> (r: String)
        ensures
            r@ == self.compare_text(),
            self matches Target::Btc(a) ==> r@ == a.text@,
            self matches Target::Eth(s) ==> r@ == s@,
    {
        match self {
            Target::Btc(a) => a.text.clone(),
            Target::Eth(s) => s.clone(),
        }
    }
}

/// The twenty bytes that candidates are compared with: the key hash of a Bitcoin address, or an
/// Ethereum address itself.
pub fn target_hash20(target: &Target) -> (r: Result<[u8; 20], String>)
    requires
        target matches Target::Eth(s) ==> is_eth_shaped(s@),
    ensures
        match (*target, r) {
            (Target::Btc(a), Ok(h)) => script_hash(a.script@) == Some(h@),
            (Target::Btc(a), Err(message)) => {
                &&& script_hash(a.script@) is None
                &&& message@ == "Not a legacy P2PKH address"@
            },
            (Target::Eth(s), Ok(h)) => eth_bytes(s@) == Some(h@),
            (Target::Eth(s), Err(message)) => {
                &&& eth_bytes(s@) is None
                &&& message@ == "invalid ETH address hex: "@ + s@
            },
        },
        target matches Target::Btc(a) ==> (r is Ok <==> a.script@.len() == 25 && a.script@[0] == 0x76
            && a.script@[1] == 0xa9 && a.script@[2] == 0x14),
        target matches Target::Btc(a) ==> (r matches Ok(h) ==> h@ == a.script@.subrange(3, 23)),
        target matches Target::Eth(s) ==> (r is Ok <==> forall|i: int|
            0 <= i < 20 ==> hex_byte(#[trigger] s@[2 + 2 * i], s@[3 + 2 * i]) is Some),
        target matches Target::Eth(s) ==> (r matches Ok(h) ==> forall|i: int|
            0 <= i < 20 ==> hex_byte(s@[2 + 2 * i], s@[3 + 2 * i]) == Some(
                (#[trigger] h@[i]) as int,
            )),
{
    match target {
        Target::Btc(a) => p2pkh_hash160(&a.script),
        Target::Eth(s) => eth_hash20(s.as_str()),
    }
}

/// What becomes of a Bitcoin target, given what was read from its text.
pub fn bitcoin_target(read: Option<AddressParts>) -> (r: Result<Target, String>)
    ensures
        match (read, r) {
            (Some(parts), Ok(target)) => parts.mainnet && target == Target::Btc(parts),
            (Some(parts), Err(message)) => {
                &&& !parts.mainnet
                &&& message@ == "Only mainnet legacy addresses supported"@
            },
            (None, Ok(_)) => false,
            (None, Err(message)) => message@ == "Invalid Bitcoin address"@,
        },
{
    match read {
        None => Err("Invalid Bitcoin address".to_owned()),
        Some(parts) => if parts.mainnet {
            Ok(Target::Btc(parts))
        } else {
            Err("Only mainnet legacy addresses supported".to_owned())
        },
    }
}

/// What a target text stands for: for each coin the address, or the message that says what is
/// wrong with it.
pub open spec fn target_read(coin: Coin, text: Seq<char>) -> Result<AddressView, Seq<char>> {
    match coin {
        Coin::Btc => match address_read(text) {
            None => Err("Invalid Bitcoin address"@),
            Some(a) => if a.mainnet {
                Ok(a)
            } else {
                Err("Only mainnet legacy addresses supported"@)
            },
        },
        Coin::Eth => match eth_normal(text) {
            Ok(t) => Ok(AddressView { text: t, script: Seq::empty(), mainnet: true }),
            Err(message) => Err(message),
        },
    }
}

/// Reads the address to search for. Derived addresses are compared with a legacy address as it was
/// given.
pub fn parse_target(coin: Coin, text: &str) -> (r: Result<Target, String>)
    ensures
        match r {
            Ok(Target::Btc(a)) => {
                &&& coin == Coin::Btc
                &&& target_read(coin, text@) == Ok::<AddressView, Seq<char>>(a@)
                &&& script_hash(a.script@) is Some ==> r->Ok_0.compare_text() == text@
            },
            Ok(Target::Eth(s)) => {
                &&& coin == Coin::Eth
                &&& target_read(coin, text@) is Ok
                &&& target_read(coin, text@)->Ok_0.text == s@
                &&& is_eth_normal(s@)
            },
            Err(message) => target_read(coin, text@) == Err::<AddressView, Seq<char>>(message@),
        },
        coin == Coin::Btc ==> match r {
            Ok(target) => {
                &&& target matches Target::Btc(a)
                &&& a.mainnet
                &&& address_read(text@) == Some(
                    (AddressView { text: a.text@, script: a.script@, mainnet: true }),
                )
            },
            Err(message) => if address_read(text@) is Some {
                &&& !(address_read(text@)->0).mainnet
                &&& message@ == "Only mainnet legacy addresses supported"@
            } else {
                message@ == "Invalid Bitcoin address"@
            },
        },
        coin == Coin::Eth ==> {
            let digits = forall|i: int|
                0 <= i < eth_body(text@).len() ==> hex_value(#[trigger] eth_body(text@)[i]) is Some;
            match r {
                Ok(target) => {
                    &&& target matches Target::Eth(s)
                    &&& eth_body(text@).len() == 40
                    &&& digits
                    &&& s@ == "0x"@ + ascii_lower_text(eth_body(text@))
                },
                Err(message) => if encode_utf8(eth_body(text@)).len() != 40 {
                    message@ == "Invalid ETH address (expected 40 hex chars): "@ + text@
                } else {
                    &&& !digits
                    &&& message@ == "Invalid ETH address (non-hex chars): "@ + text@
                },
            }
        },
{
    match coin {
        Coin::Btc => bitcoin_target(parse_address(text)),
        Coin::Eth => match normalize_eth_address(text) {
            Ok(t) => {
                proof {
                    normal_form(text@);
                }
                Ok(Target::Eth(t))
            },
            Err(message) => Err(message),
        },
    }
}

/// An accepted address in normal form is `0x` and 40 small hexadecimal digits.
pub proof fn normal_form(s: Seq<char>)
    requires
        eth_normal(s) is Ok,
    ensures
        is_eth_normal(eth_normal(s)->Ok_0),
{
    let body = eth_body(s);
    lemma_hex_width(body);
    reveal_strlit("0x");
    let t = eth_normal(s)->Ok_0;
    assert forall|i: int| 2 <= i < 42 implies is_hex(#[trigger] t[i]) && !('A' <= t[i]
        <= 'F') by {
        assert(is_hex(body[i - 2]));
    }
}

/// An address in normal form can be shown with its checksum and read as twenty bytes.
pub proof fn normal_form_usable(s: Seq<char>)
    requires
        is_eth_normal(s),
    ensures
        is_checksummable(s),
        is_eth_shaped(s),
        eth_bytes(s) is Some,
{
    assert forall|i: int| 0 <= i < s.len() implies (#[trigger] s[i] as int) < 128 by {
        if i >= 2 {
            assert(is_hex(s[i]));
        }
    }
    assert forall|i: int| 0 <= i < 20 implies (#[trigger] eth_byte(s, i)) is Some by {
        assert(is_hex(s[2 + 2 * i]) && is_hex(s[3 + 2 * i]));
    }
}

/// A hexadecimal digit takes one byte.
pub proof fn lemma_hex_width(body: Seq<char>)
    requires
        all_hex(body),
    ensures
        encode_utf8(body).len() == body.len(),
{
    assert forall|i: int| 0 <= i < body.len() implies 0 <= (#[trigger] body[i]) as u32 <= 127 by {
        assert(is_hex(body[i]));
    }
    vstd::utf8::is_ascii_chars_encode_utf8(body);
}

} // verus!
