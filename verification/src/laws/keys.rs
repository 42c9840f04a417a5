//! Laws of the way from a phrase to its address.
use vstd::prelude::*;

use crate::address::{eth_address_of_key, keccak256_of};
use crate::coin::Coin;
use crate::hex::hex_text;
use crate::keys::{
    address_of_phrase, address_of_public, address_of_secret, address_of_seed, child_of, master_of,
    p2pkh_of, public_of, seed_of,
};
use crate::language::Language;

verus! {

/// The address of a seed is that of the secret key that stands at this very path below the master
/// key of this very seed, and the address of a secret key is that of its public key.
pub proof fn address_is_that_of_the_key_at_the_path(
    seed: Seq<u8>,
    path: Seq<u32>,
    coin: Coin,
    master: Seq<u8>,
    secret: Seq<u8>,
    key: Seq<u8>,
)
    requires
        master_of(seed) == Some(master),
        child_of(master, path) == Some(secret),
        public_of(secret) == Some(key),
    ensures
        address_of_seed(seed, path, coin) == match coin {
            Coin::Btc => p2pkh_of(key),
            Coin::Eth => Some("0x"@ + hex_text(keccak256_of(key.skip(1)).skip(12))),
        },
        address_of_secret(secret, coin) == address_of_seed(seed, path, coin),
        address_of_public(key, coin) == address_of_seed(seed, path, coin),
        coin == Coin::Eth ==> address_of_public(key, coin) == Some(eth_address_of_key(key)),
{
}

/// Where one of the steps from the seed to the public key gives nothing, there is no address.
pub proof fn no_address_without_a_key(seed: Seq<u8>, path: Seq<u32>, coin: Coin)
    requires
        master_of(seed) matches Some(master) ==> (child_of(master, path) matches Some(secret)
            ==> public_of(secret) is None),
    ensures
        address_of_seed(seed, path, coin) is None,
{
}

/// Two paths that lead to the same secret key lead to the same address, whatever the seeds.
pub proof fn same_secret_same_address(
    seed: Seq<u8>,
    path: Seq<u32>,
    other_seed: Seq<u8>,
    other_path: Seq<u32>,
    coin: Coin,
)
    requires
        master_of(seed) is Some,
        master_of(other_seed) is Some,
        child_of(master_of(seed)->0, path) == child_of(master_of(other_seed)->0, other_path),
    ensures
        address_of_seed(seed, path, coin) == address_of_seed(other_seed, other_path, coin),
{
}

/// The address of a phrase is that of its seed without a passphrase, and a phrase that is not
/// accepted has none.
pub proof fn address_of_a_phrase(
    language: Language,
    phrase: Seq<char>,
    path: Seq<u32>,
    coin: Coin,
)
    ensures
        match seed_of(language, phrase, ""@) {
            Some(seed) => address_of_phrase(language, phrase, path, coin) == address_of_seed(
                seed,
                path,
                coin,
            ),
            None => address_of_phrase(language, phrase, path, coin) is None,
        },
{
}

} // verus!
