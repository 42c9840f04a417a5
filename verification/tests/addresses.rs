use mnemonic_recovery::address::{
    bitcoin_target, checksum_text, eth_address_from_key, eth_address_of_hash, eth_checksum_address,
    eth_hash20, normalize_eth_address, p2pkh_hash160, parse_target, target_hash20, AddressParts,
    Target,
};
use mnemonic_recovery::coin::{
    choose_path, default_derivation_path, find_coin, force_cpu, parse_coin, pipeline_kernel, Coin,
};
use mnemonic_recovery::hex::hex_lower;
use mnemonic_recovery::language::{find_language, parse_language, Language};

fn unhex(s: &str) -> Vec<u8> {
    (0..s.len() / 2).map(|i| u8::from_str_radix(&s[2 * i..2 * i + 2], 16).unwrap()).collect()
}

const CHECKSUMMED: [&str; 8] = [
    "0x5aAeb6053F3E94C9b9A09f33669435E7Ef1BeAed",
    "0xfB6916095ca1df60bB79Ce92cE3Ea74c37c5d359",
    "0xdbF03B407c01E7cD3CBea99509d93f8DDDC8C6FB",
    "0xD1220A0cf47c7B9Be7A2E6BA89F429762e7b9aDb",
    "0x52908400098527886E0F7030069857D2E4169EE7",
    "0x8617E340B3D01FA5F11F306F4090FD50E238070D",
    "0xde709f2102306220921060314715629080e2fb77",
    "0x27b1fdb04752bbc536007a920d24acb045561c26",
];

#[test]
fn coins_by_name() {
    assert_eq!(parse_coin("btc"), Ok(Coin::Btc));
    assert_eq!(parse_coin("BitCoin"), Ok(Coin::Btc));
    assert_eq!(parse_coin("ETH"), Ok(Coin::Eth));
    assert_eq!(parse_coin("ethereum"), Ok(Coin::Eth));
    assert_eq!(
        parse_coin("Doge"),
        Err("Unknown coin 'Doge' (expected 'btc' or 'eth')".to_string())
    );
    assert_eq!(find_coin("BTC"), None);
    assert_eq!(find_coin("bitcoin"), Some(Coin::Btc));
}

#[test]
fn languages_by_name() {
    assert_eq!(parse_language("English"), Ok(Language::English));
    assert_eq!(parse_language("portuguese"), Ok(Language::Portuguese));
    assert_eq!(parse_language("spanish"), Ok(Language::Spanish));
    assert_eq!(parse_language("french"), Ok(Language::French));
    assert_eq!(parse_language("italian"), Ok(Language::Italian));
    assert_eq!(parse_language("czech"), Ok(Language::Czech));
    // The Kelvin sign has the small letter k.
    assert_eq!(parse_language("\u{212a}OREAN"), Ok(Language::Korean));
    assert_eq!(parse_language("JAPANESE"), Ok(Language::Japanese));
    assert_eq!(parse_language("Chinese-Simplified"), Ok(Language::SimplifiedChinese));
    assert_eq!(parse_language("chinese-traditional"), Ok(Language::TraditionalChinese));
    assert_eq!(parse_language("Klingon"), Err("Unknown language 'Klingon'".to_string()));
    assert_eq!(find_language("English"), None);
}

#[test]
fn paths_and_kernels_of_coins() {
    assert_eq!(default_derivation_path(Coin::Btc), "m/44'/0'/0'/0/0");
    assert_eq!(default_derivation_path(Coin::Eth), "m/44'/60'/0'/0/0");
    assert_eq!(pipeline_kernel(Coin::Btc), "k_pipeline");
    assert_eq!(pipeline_kernel(Coin::Eth), "k_pipeline_eth");
}

#[test]
fn custom_paths_are_searched_on_the_cpu() {
    assert_eq!(choose_path(None, Coin::Btc), ("m/44'/0'/0'/0/0".to_string(), false));
    let same = Some("m/44'/60'/0'/0/0".to_string());
    assert_eq!(choose_path(same.clone(), Coin::Eth), (same.clone().unwrap(), false));
    assert_eq!(choose_path(same.clone(), Coin::Btc), (same.unwrap(), true));
    assert!(!force_cpu(false, false));
    assert!(force_cpu(true, false));
    assert!(force_cpu(false, true));
}

#[test]
fn bytes_in_hexadecimal() {
    assert_eq!(hex_lower(&[]), "");
    assert_eq!(hex_lower(&[0x00, 0x0f, 0xa0, 0xff]), "000fa0ff");
}

#[test]
fn addresses_are_normalized() {
    let normal = "0x5aaeb6053f3e94c9b9a09f33669435e7ef1beaed";
    for s in [
        "0x5aAeb6053F3E94C9b9A09f33669435E7Ef1BeAed",
        "0X5AAEB6053F3E94C9B9A09F33669435E7EF1BEAED",
        "5aaeb6053f3e94c9b9a09f33669435e7ef1beaed",
        normal,
    ] {
        assert_eq!(normalize_eth_address(s), Ok(normal.to_string()));
    }
}

#[test]
fn addresses_of_another_length_are_refused() {
    for s in ["", "0x", "0x5aae", "0x5aaeb6053f3e94c9b9a09f33669435e7ef1beaed0", "0x0x5aaeb6053f3e94c9b9a09f33669435e7ef1beaed"] {
        assert_eq!(
            normalize_eth_address(s),
            Err(format!("Invalid ETH address (expected 40 hex chars): {s}"))
        );
    }
}

#[test]
fn addresses_with_other_characters_are_refused() {
    for s in [
        "0x5aaeb6053f3e94c9b9a09f33669435e7ef1beaeg",
        "éééééééééééééééééééé",
        "0x +++++++++++++++++++++++++++++++++++++++",
    ] {
        assert_eq!(
            normalize_eth_address(s),
            Err(format!("Invalid ETH address (non-hex chars): {s}"))
        );
    }
}

#[test]
fn checksums_of_eip_55() {
    for s in CHECKSUMMED {
        let normal = normalize_eth_address(s).unwrap();
        assert_eq!(normal, s.to_lowercase());
        assert_eq!(eth_checksum_address(&normal), s);
        assert_eq!(normalize_eth_address(&eth_checksum_address(&normal)), Ok(normal));
    }
}

#[test]
fn capitals_follow_the_digits_of_the_hash() {
    assert_eq!(checksum_text("ab1cd", &[0x87, 0xf8, 0x00]), "0xAb1Cd");
    assert_eq!(checksum_text("111", &[]), "0x111");
}

#[test]
fn address_is_the_end_of_a_hash() {
    let hash: Vec<u8> = (0..32).collect();
    let address = eth_address_of_hash(&hash);
    assert_eq!(address, "0x0c0d0e0f101112131415161718191a1b1c1d1e1f");
    assert_eq!(normalize_eth_address(&address), Ok(address.clone()));
    assert_eq!(eth_hash20(&address).unwrap().to_vec(), hash[12..].to_vec());
}

#[test]
fn address_of_a_public_key() {
    // The generator point: the public key of the secret key 1.
    let key = unhex(
        "0479be667ef9dcbbac55a06295ce870b07029bfcdb2dce28d959f2815b16f81798\
         483ada7726a3c4655da4fbfc0e1108a8fd17b448a68554199c47d08ffb10d4b8",
    );
    assert_eq!(eth_address_from_key(&key), "0x7e5f4552091a69125d5dfcb7b8c2659029395bdf");
}

#[test]
fn twenty_bytes_of_an_ethereum_target() {
    let s = "0x00010203040506070809aabbccddeeff10203040";
    let h = eth_hash20(s).unwrap();
    assert_eq!(h.to_vec(), unhex(&s[2..]));
    assert_eq!(format!("0x{}", hex_lower(&h)), s);
    assert_eq!(target_hash20(&Target::Eth(s.to_string())), Ok(h));
    let plus = "0x+1010203040506070809aabbccddeeff10203040";
    assert_eq!(eth_hash20(plus).unwrap()[0], 1);
    let bad = "0x0g010203040506070809aabbccddeeff10203040";
    assert_eq!(eth_hash20(bad), Err(format!("invalid ETH address hex: {bad}")));
    assert_eq!(
        target_hash20(&Target::Eth(bad.to_string())),
        Err(format!("invalid ETH address hex: {bad}"))
    );
}

#[test]
fn bitcoin_target_is_read() {
    let text = "1BvBMSEYstWetqTFn5Au4m4GFg7xJaNVN2";
    let target = parse_target(Coin::Btc, text).unwrap();
    assert_eq!(target.as_compare_string(), text);
    assert_eq!(target.as_display_string(), text);
    let hash = unhex("77bff20c60e522dfaa3350c39b030a5d004e839a");
    assert_eq!(target_hash20(&target).unwrap().to_vec(), hash);
    match target {
        Target::Btc(parts) => {
            let mut script = vec![0x76, 0xa9, 0x14];
            script.extend_from_slice(&hash);
            script.extend_from_slice(&[0x88, 0xac]);
            assert_eq!(parts.script, script);
            assert!(parts.mainnet);
        }
        Target::Eth(_) => panic!("another coin"),
    }
}

#[test]
fn bitcoin_target_is_written_in_its_own_form() {
    let upper = "BC1QW508D6QEJXTDG4Y5R3ZARVARY0C5XW7KV8F3T4";
    let target = parse_target(Coin::Btc, upper).unwrap();
    assert_eq!(target.as_compare_string(), upper.to_lowercase());
}

#[test]
fn other_bitcoin_addresses_have_no_key_hash() {
    let target = parse_target(Coin::Btc, "3J98t1WpEZ73CNmQviecrnyiWrnqRhWNLy").unwrap();
    assert_eq!(target_hash20(&target), Err("Not a legacy P2PKH address".to_string()));
    assert!(p2pkh_hash160(&[]).is_err());
    let mut script = vec![0u8; 25];
    assert!(p2pkh_hash160(&script).is_err());
    script[0] = 0x76;
    script[1] = 0xa9;
    script[2] = 0x14;
    script[3] = 7;
    assert_eq!(p2pkh_hash160(&script).unwrap()[0], 7);
}

#[test]
fn bad_bitcoin_targets_are_refused() {
    for s in ["", "1BvBMSEYstWetqTFn5Au4m4GFg7xJaNVN3", "hello"] {
        assert_eq!(
            parse_target(Coin::Btc, s).map(|t| t.as_compare_string()),
            Err("Invalid Bitcoin address".to_string())
        );
    }
    assert_eq!(
        parse_target(Coin::Btc, "mipcBbFg9gMiCh81Kj8tqqdgoZub1ZJRfn").map(|t| t.as_compare_string()),
        Err("Only mainnet legacy addresses supported".to_string())
    );
}

#[test]
fn what_was_read_decides_on_a_bitcoin_target() {
    let parts = |mainnet: bool| AddressParts { text: "t".to_string(), script: vec![1], mainnet };
    assert_eq!(bitcoin_target(Some(parts(true))).unwrap().as_compare_string(), "t");
    assert!(bitcoin_target(Some(parts(false))).is_err());
    assert!(bitcoin_target(None).is_err());
}

#[test]
fn ethereum_target_is_shown_with_its_checksum() {
    for s in CHECKSUMMED {
        let target = parse_target(Coin::Eth, &s[2..].to_uppercase()).unwrap();
        assert_eq!(target.as_compare_string(), s.to_lowercase());
        assert_eq!(target.as_display_string(), s);
    }
    assert!(parse_target(Coin::Eth, "0x12").is_err());
}
