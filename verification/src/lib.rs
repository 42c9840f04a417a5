//! Recovery of BIP-39 mnemonics from partly known words: which phrases to try, and which of them
//! leads to an address.
pub mod address;
pub mod candidates;
pub mod coin;
pub mod enumeration;
pub mod hex;
pub mod keys;
pub mod language;
pub mod laws;
pub mod listing;
pub mod number;
pub mod odometer;
pub mod phrases;
pub mod places;
pub mod plan;
pub mod probe;
pub mod progress;
pub mod search;
pub mod text;
pub mod tokenlist;
pub mod tokens;
pub mod totals;
pub mod word_mode;
pub mod word_report;
