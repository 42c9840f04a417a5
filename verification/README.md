# mnemonic_recovery

Finds a twelve-word BIP-39 mnemonic of which some words, or their order, are not known, by trying
phrases until one leads to a given Bitcoin or Ethereum address.

The library under `src/` is verified with Verus. It decides which phrases are tried and what each
of them leads to:

- word mode: `word_mode`, `totals`, `word_report`
- tokenlist mode: `tokens`, `tokenlist`, `candidates`, `phrases`, `plan`, `search`
- addresses and keys: `coin`, `language`, `address`, `hex`, `keys`
- output: `number`, `progress`, `probe`
- ground: `text`, `places`, `listing`, `enumeration`, `odometer`

`laws` states what holds of the library as a whole, such as that exactly the phrases that fit the
known words are tried.

Word lists, seeds, key derivation, hashes and the enumeration of orders come from the crates
`bip39`, `bitcoin`, `sha3` and `itertools`; what is assumed of each call stands at the function
that makes it.

`app/` is the command line around the library.
