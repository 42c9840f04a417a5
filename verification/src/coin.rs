//! The coins whose addresses can be searched for, and their derivation paths.
use vstd::prelude::*;

use crate::text::{ascii_lower_text, concat3, is_ascii_text, lowercase, same_text};

verus! {

/// A coin.
#[derive(Debug, Clone, Copy, PartialEq, Eq, Structural)]
pub enum Coin {
    Btc,
    Eth,
}

/// The coin with this name, in small letters.
pub open spec fn coin_named(name: Seq<char>) -> Option<Coin> {
    if name == "btc"@ || name == "bitcoin"@ {
        Some(Coin::Btc)
    } else if name == "eth"@ || name == "ethereum"@ {
        Some(Coin::Eth)
    } else {
        None
    }
}

/// Finds the coin with this name, in small letters.
pub fn find_coin(name: &str) -> (r: Option<Coin>)
    ensures
        r == coin_named(name@),
        r == Some(Coin::Btc) <==> name@ == "btc"@ || name@ == "bitcoin"@,
        r == Some(Coin::Eth) <==> name@ == "eth"@ || name@ == "ethereum"@,
{
    proof {
        reveal_strlit("btc");
        reveal_strlit("bitcoin");
        reveal_strlit("eth");
        reveal_strlit("ethereum");
        assert("btc"@[0] != "eth"@[0] && "btc"@[0] != "ethereum"@[0]);
        assert("bitcoin"@[0] != "eth"@[0] && "bitcoin"@[0] != "ethereum"@[0]);
    }
    if same_text(name, "btc") || same_text(name, "bitcoin") {
        Some(Coin::Btc)
    } else if same_text(name, "eth") || same_text(name, "ethereum") {
        Some(Coin::Eth)
    } else {
        None
    }
}

/// Reads the name of a coin, in letters of either case. The error says what was expected.
pub fn parse_coin(s: &str) -> (r: Result<Coin, String>)
    ensures
        match r {
            Ok(coin) => coin_named(lowercase(s@)) == Some(coin),
            Err(message) => {
                &&& coin_named(lowercase(s@)) is None
                &&& message@ == "Unknown coin '"@ + s@ + "' (expected 'btc' or 'eth')"@
            },
        },
        is_ascii_text(s@) ==> coin_named(ascii_lower_text(s@)) == (match r {
            Ok(coin) => Some(coin),
            Err(_) => None,
        }),
        r matches Ok(Coin::Btc) <==> lowercase(s@) == "btc"@ || lowercase(s@) == "bitcoin"@,
        r matches Ok(Coin::Eth) <==> lowercase(s@) == "eth"@ || lowercase(s@) == "ethereum"@,
{
    let name = s.to_lowercase();
    match find_coin(name.as_str()) {
        Some(coin) => Ok(coin),
        None => Err(concat3("Unknown coin '", s, "' (expected 'btc' or 'eth')")),
    }
}

/// The derivation path that wallets use for a coin.
pub open spec fn default_path(coin: Coin) -> Seq<char> {
    match coin {
        Coin::Btc => "m/44'/0'/0'/0/0"@,
        Coin::Eth => "m/44'/60'/0'/0/0"@,
    }
}

/// The derivation path that wallets use for a coin.
pub fn default_derivation_path(coin: Coin) -> (r: &'static str)
    ensures
        r@ == default_path(coin),
        coin == Coin::Btc ==> r@ == "m/44'/0'/0'/0/0"@,
        coin == Coin::Eth ==> r@ == "m/44'/60'/0'/0/0"@,
{
    match coin {
        Coin::Btc => "m/44'/0'/0'/0/0",
        Coin::Eth => "m/44'/60'/0'/0/0",
    }
}

/// The name of the GPU kernel that searches for addresses of a coin.
pub fn pipeline_kernel(coin: Coin) -> (r: &'static str)
    ensures
        r@ == (match coin {
            Coin::Btc => "k_pipeline"@,
            Coin::Eth => "k_pipeline_eth"@,
        }),
{
    match coin {
        Coin::Btc => "k_pipeline",
        Coin::Eth => "k_pipeline_eth",
    }
}

/// The derivation path to search with, and whether it is another one than the coin's default.
pub fn choose_path(given: Option<String>, coin: Coin) -> (r: (String, bool))
    ensures
        r.0@ == (match given {
            Some(path) => path@,
            None => default_path(coin),
        }),
        r.1 <==> r.0@ != default_path(coin),
        given matches Some(path) ==> r.0@ == path@,
        given is None && coin == Coin::Btc ==> r.0@ == "m/44'/0'/0'/0/0"@,
        given is None && coin == Coin::Eth ==> r.0@ == "m/44'/60'/0'/0/0"@,
        coin == Coin::Btc ==> (r.1 <==> r.0@ != "m/44'/0'/0'/0/0"@),
        coin == Coin::Eth ==> (r.1 <==> r.0@ != "m/44'/60'/0'/0/0"@),
{
    match given {
        Some(path) => {
            let custom = !same_text(path.as_str(), default_derivation_path(coin));
            (path, custom)
        },
        None => (default_derivation_path(coin).to_owned(), false),
    }
}

/// Whether to search on the CPU: on request, and always along a custom path, since the GPU kernels
/// only know each coin's default path.
pub fn force_cpu(cpu: bool, custom_path: bool) -> (r: bool)
    ensures
        r <==> cpu || custom_path,
{
    cpu || custom_path
}

} // verus!
