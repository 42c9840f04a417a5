//! From a phrase to the address that belongs to it.
use bip39::{Language as Lang, Mnemonic};
use bitcoin::bip32::{ChildNumber, DerivationPath, Xpriv};
use bitcoin::secp256k1::{PublicKey as Point, Secp256k1, SecretKey};
use bitcoin::{Address, Network, PublicKey};
use vstd::prelude::*;

use crate::address::{eth_address_from_key, eth_address_of_key, keccak256_of};
use crate::coin::Coin;
use crate::hex::hex_text;
use crate::language::Language;

verus! {

////// Paths

/// The child numbers that the `bitcoin` crate reads from the text of a derivation path.
pub uninterp spec fn path_read(text: Seq<char>) -> Option<Seq<u32>>;

/// Parsing `bitcoin::bip32::DerivationPath` from a text gives a path or an error, and always the
/// same one for the same text. Of a path this gives the numbers of `DerivationPath::to_u32_vec`,
/// in which a hardened child has its top bit set; of an error it gives nothing.
#[verifier::external_body]
fn read_path(text: &str) -> (r: Option<Vec<u32>>)
    ensures
        match r {
            Some(path) => path_read(text@) == Some(path@),
            None => path_read(text@) is None,
        },
{
    let path = text.parse::<DerivationPath>().ok()?;
    Some(path.to_u32_vec())
}

/// Reads a derivation path.
pub fn parse_derivation_path(text: &str) -> (r: Result<Vec<u32>, String>)
    ensures
        match r {
            Ok(path) => path_read(text@) == Some(path@),
            Err(message) => {
                &&& path_read(text@) is None
                &&& message@ == "Invalid derivation path"@
            },
        },
{
    match read_path(text) {
        Some(path) => Ok(path),
        None => Err("Invalid derivation path".to_owned()),
    }
}

////// Keys

/// The seed of a phrase, if the `bip39` crate accepts it.
pub uninterp spec fn seed_of(language: Language, phrase: Seq<char>, passphrase: Seq<char>) -> Option<
    Seq<u8>,
>;

/// `bip39::Mnemonic::parse_in_normalized` accepts a phrase whose words are in the language's list
/// and whose checksum is right, and `Mnemonic::to_seed` makes a seed of it and the passphrase:
/// always the same one for the same arguments. Where the phrase is not accepted there is no seed.
#[verifier::external_body]
fn mnemonic_seed(language: Language, phrase: &str, passphrase: &str) -> (r: Option<Vec<u8>>)
    ensures
        match r {
            Some(seed) => seed_of(language, phrase@, passphrase@) == Some(seed@),
            None => seed_of(language, phrase@, passphrase@) is None,
        },
{
    let lang = match language {
        Language::English => Lang::English,
        Language::Portuguese => Lang::Portuguese,
        Language::Spanish => Lang::Spanish,
        Language::French => Lang::French,
        Language::Italian => Lang::Italian,
        Language::Czech => Lang::Czech,
        Language::Korean => Lang::Korean,
        Language::Japanese => Lang::Japanese,
        Language::SimplifiedChinese => Lang::SimplifiedChinese,
        Language::TraditionalChinese => Lang::TraditionalChinese,
    };
    let mnemonic = Mnemonic::parse_in_normalized(lang, phrase).ok()?;
    Some(mnemonic.to_seed(passphrase).to_vec())
}

/// The extended master key of a seed, in its binary encoding.
pub uninterp spec fn master_of(seed: Seq<u8>) -> Option<Seq<u8>>;

/// `bitcoin::bip32::Xpriv::new_master` makes an extended key for the main network out of a seed, or
/// fails, and always in the same way for the same seed. The key comes in the encoding of
/// `Xpriv::encode`; of an error this gives nothing.
#[verifier::external_body]
fn master_key(seed: &[u8]) -> (r: Option<Vec<u8>>)
    ensures
        match r {
            Some(key) => master_of(seed@) == Some(key@),
            None => master_of(seed@) is None,
        },
{
    let master = Xpriv::new_master(Network::Bitcoin, seed).ok()?;
    Some(master.encode().to_vec())
}

/// The secret key at a path below an extended key.
pub uninterp spec fn child_of(key: Seq<u8>, path: Seq<u32>) -> Option<Seq<u8>>;

/// `bitcoin::bip32::Xpriv::derive_priv` derives the key at a path below an extended key, or fails,
/// and always in the same way for the same arguments. The extended key is read with `Xpriv::decode`
/// (no result where that fails) and each child number with `ChildNumber::from`; of the derived key
/// this gives the secret bytes. The derivation calls for key material below the curve's order
/// and stops the program on the one hash in about 2^127 that gives none.
#[verifier::external_body]
fn child_secret(key: &[u8], path: &[u32]) -> (r: Option<Vec<u8>>)
    ensures
        match r {
            Some(secret) => child_of(key@, path@) == Some(secret@),
            None => child_of(key@, path@) is None,
        },
{
    let master = Xpriv::decode(key).ok()?;
    let numbers: Vec<ChildNumber> = path.iter().map(|n| ChildNumber::from(*n)).collect();
    let child = master.derive_priv(&Secp256k1::new(), &numbers).ok()?;
    Some(child.private_key.secret_bytes().to_vec())
}

/// The public key of a secret key, as the byte `04` and the two coordinates.
pub uninterp spec fn public_of(secret: Seq<u8>) -> Option<Seq<u8>>;

/// `secp256k1::PublicKey::from_secret_key` gives the public key of a secret key, always the same
/// one. The secret key is read with `SecretKey::from_slice` (no result where that fails), and the
/// public key comes in the 65 bytes of `PublicKey::serialize_uncompressed`.
#[verifier::external_body]
fn public_key(secret: &[u8]) -> (r: Option<Vec<u8>>)
    ensures
        match r {
            Some(key) => public_of(secret@) == Some(key@) && key@.len() == 65,
            None => public_of(secret@) is None,
        },
{
    let secret = SecretKey::from_slice(secret).ok()?;
    let point = Point::from_secret_key(&Secp256k1::new(), &secret);
    Some(point.serialize_uncompressed().to_vec())
}

/// The legacy Bitcoin address of a public key.
pub uninterp spec fn p2pkh_of(public_key: Seq<u8>) -> Option<Seq<char>>;

/// `bitcoin::Address::p2pkh` gives the legacy address of a compressed public key on the main
/// network, always the same one. The key is read with `secp256k1::PublicKey::from_slice` (no result
/// where that fails), and the address comes as `Address::to_string` writes it.
#[verifier::external_body]
fn p2pkh_address(public_key: &[u8]) -> (r: Option<String>)
    ensures
        match r {
            Some(address) => p2pkh_of(public_key@) == Some(address@),
            None => p2pkh_of(public_key@) is None,
        },
{
    let point = Point::from_slice(public_key).ok()?;
    Some(Address::p2pkh(PublicKey::new(point), Network::Bitcoin).to_string())
}

////// Addresses

/// The address that belongs to a public key.
pub open spec fn address_of_public(public_key: Seq<u8>, coin: Coin) -> Option<Seq<char>> {
    match coin {
        Coin::Btc => p2pkh_of(public_key),
        Coin::Eth => Some(eth_address_of_key(public_key)),
    }
}

/// The address that belongs to a secret key.
pub open spec fn address_of_secret(secret: Seq<u8>, coin: Coin) -> Option<Seq<char>> {
    match public_of(secret) {
        Some(key) => address_of_public(key, coin),
        None => None,
    }
}

/// The address at a path below the master key of a seed.
pub open spec fn address_of_seed(seed: Seq<u8>, path: Seq<u32>, coin: Coin) -> Option<Seq<char>> {
    match master_of(seed) {
        Some(master) => match child_of(master, path) {
            Some(secret) => address_of_secret(secret, coin),
            None => None,
        },
        None => None,
    }
}

/// The address at a path below the master key of a phrase without a passphrase. There is none for
/// a phrase that is not accepted.
pub open spec fn address_of_phrase(
    language: Language,
    phrase: Seq<char>,
    path: Seq<u32>,
    coin: Coin,
) -> Option<Seq<char>> {
    match seed_of(language, phrase, ""@) {
        Some(seed) => address_of_seed(seed, path, coin),
        None => None,
    }
}

/// Computes the Ethereum address of a secret key.
pub fn eth_address_from_privkey(secret: &[u8]) -> (r: Option<String>)
    ensures
        match r {
            Some(address) => address_of_secret(secret@, Coin::Eth) == Some(address@),
            None => address_of_secret(secret@, Coin::Eth) is None,
        },
        match r {
            Some(address) => public_of(secret@) matches Some(key) && address@ == "0x"@ + hex_text(
                keccak256_of(key.skip(1)).skip(12),
            ),
            None => public_of(secret@) is None,
        },
{
    match public_key(secret) {
        Some(key) => Some(eth_address_from_key(&key)),
        None => None,
    }
}

/// Computes the legacy Bitcoin address of a secret key.
pub fn btc_address_from_privkey(secret: &[u8]) -> (r: Option<String>)
    ensures
        match r {
            Some(address) => address_of_secret(secret@, Coin::Btc) == Some(address@),
            None => address_of_secret(secret@, Coin::Btc) is None,
        },
        match r {
            Some(address) => public_of(secret@) matches Some(key) && p2pkh_of(key) == Some(address@),
            None => public_of(secret@) matches Some(key) ==> p2pkh_of(key) is None,
        },
{
    match public_key(secret) {
        Some(key) => p2pkh_address(&key),
        None => None,
    }
}

/// Computes the address at a path below the master key of a seed.
pub fn seed_address(seed: &[u8], path: &[u32], coin: Coin) -> (r: Option<String>)
    ensures
        match r {
            Some(address) => address_of_seed(seed@, path@, coin) == Some(address@),
            None => address_of_seed(seed@, path@, coin) is None,
        },
        match master_of(seed@) {
            None => r is None,
            Some(master) => match child_of(master, path@) {
                None => r is None,
                Some(secret) => match public_of(secret) {
                    None => r is None,
                    Some(key) => match coin {
                        Coin::Btc => match r {
                            Some(address) => p2pkh_of(key) == Some(address@),
                            None => p2pkh_of(key) is None,
                        },
                        Coin::Eth => r matches Some(address) && address@ == "0x"@ + hex_text(
                            keccak256_of(key.skip(1)).skip(12),
                        ),
                    },
                },
            },
        },
{
    let master = match master_key(seed) {
        Some(master) => master,
        None => {
            return None;
        },
    };
    let secret = match child_secret(&master, path) {
        Some(secret) => secret,
        None => {
            return None;
        },
    };
    match coin {
        Coin::Btc => btc_address_from_privkey(&secret),
        Coin::Eth => eth_address_from_privkey(&secret),
    }
}

/// Computes the address that belongs to a phrase.
pub fn phrase_address(language: Language, phrase: &str, path: &[u32], coin: Coin) -> (r: Option<
    String,
>)
    ensures
        match r {
            Some(address) => address_of_phrase(language, phrase@, path@, coin) == Some(address@),
            None => address_of_phrase(language, phrase@, path@, coin) is None,
        },
        match seed_of(language, phrase@, ""@) {
            None => r is None,
            Some(seed) => match master_of(seed) {
                None => r is None,
                Some(master) => match child_of(master, path@) {
                    None => r is None,
                    Some(secret) => match public_of(secret) {
                        None => r is None,
                        Some(key) => match coin {
                            Coin::Btc => match r {
                                Some(address) => p2pkh_of(key) == Some(address@),
                                None => p2pkh_of(key) is None,
                            },
                            Coin::Eth => r matches Some(address) && address@ == "0x"@ + hex_text(
                                keccak256_of(key.skip(1)).skip(12),
                            ),
                        },
                    },
                },
            },
        },
{
    match mnemonic_seed(language, phrase, "") {
        Some(seed) => seed_address(&seed, path, coin),
        None => None,
    }
}

/// Whether a derived address is the one that is searched for.
pub fn is_target(address: &Option<String>, target: &String) -> (r: bool)
    ensures
        r <==> (address matches Some(a) && a@ == target@),
{
    match address {
        Some(a) => *a == *target,
        None => false,
    }
}

/// Whether a phrase leads to the address that is searched for.
pub fn check_phrase(language: Language, phrase: &str, path: &[u32], coin: Coin, target: &String) -> (r:
    bool)
    ensures
        r <==> address_of_phrase(language, phrase@, path@, coin) == Some(target@),
        r <==> {
            &&& seed_of(language, phrase@, ""@) matches Some(seed)
            &&& master_of(seed) matches Some(master)
            &&& child_of(master, path@) matches Some(secret)
            &&& public_of(secret) matches Some(key)
            &&& match coin {
                Coin::Btc => p2pkh_of(key) == Some(target@),
                Coin::Eth => target@ == "0x"@ + hex_text(keccak256_of(key.skip(1)).skip(12)),
            }
        },
{
    let address = phrase_address(language, phrase, path, coin);
    is_target(&address, target)
}

} // verus!
