//! The languages that have a BIP-39 word list.
use bip39::Language as Lang;
use vstd::prelude::*;

use crate::text::{ascii_lower_text, concat3, is_ascii_text, lowercase, same_text, texts};

verus! {

/// A language with a word list.
#[derive(Debug, Clone, Copy, PartialEq, Eq, Structural)]
pub enum Language {
    English,
    Portuguese,
    Spanish,
    French,
    Italian,
    Czech,
    Korean,
    Japanese,
    SimplifiedChinese,
    TraditionalChinese,
}

/// The language with this name, in small letters.
pub open spec fn language_named(name: Seq<char>) -> Option<Language> {
    if name == "english"@ {
        Some(Language::English)
    } else if name == "portuguese"@ {
        Some(Language::Portuguese)
    } else if name == "spanish"@ {
        Some(Language::Spanish)
    } else if name == "french"@ {
        Some(Language::French)
    } else if name == "italian"@ {
        Some(Language::Italian)
    } else if name == "czech"@ {
        Some(Language::Czech)
    } else if name == "korean"@ {
        Some(Language::Korean)
    } else if name == "japanese"@ {
        Some(Language::Japanese)
    } else if name == "chinese-simplified"@ {
        Some(Language::SimplifiedChinese)
    } else if name == "chinese-traditional"@ {
        Some(Language::TraditionalChinese)
    } else {
        None
    }
}

/// Finds the language with this name, in small letters.
pub fn find_language(name: &str) -> (r: Option<Language>)
    ensures
        r == language_named(name@),
        match r {
            Some(Language::English) => name@ == "english"@,
            Some(Language::Portuguese) => name@ == "portuguese"@,
            Some(Language::Spanish) => name@ == "spanish"@,
            Some(Language::French) => name@ == "french"@,
            Some(Language::Italian) => name@ == "italian"@,
            Some(Language::Czech) => name@ == "czech"@,
            Some(Language::Korean) => name@ == "korean"@,
            Some(Language::Japanese) => name@ == "japanese"@,
            Some(Language::SimplifiedChinese) => name@ == "chinese-simplified"@,
            Some(Language::TraditionalChinese) => name@ == "chinese-traditional"@,
            None => {
                &&& name@ != "english"@
                &&& name@ != "portuguese"@
                &&& name@ != "spanish"@
                &&& name@ != "french"@
                &&& name@ != "italian"@
                &&& name@ != "czech"@
                &&& name@ != "korean"@
                &&& name@ != "japanese"@
                &&& name@ != "chinese-simplified"@
                &&& name@ != "chinese-traditional"@
            },
        },
{
    if same_text(name, "english") {
        Some(Language::English)
    } else if same_text(name, "portuguese") {
        Some(Language::Portuguese)
    } else if same_text(name, "spanish") {
        Some(Language::Spanish)
    } else if same_text(name, "french") {
        Some(Language::French)
    } else if same_text(name, "italian") {
        Some(Language::Italian)
    } else if same_text(name, "czech") {
        Some(Language::Czech)
    } else if same_text(name, "korean") {
        Some(Language::Korean)
    } else if same_text(name, "japanese") {
        Some(Language::Japanese)
    } else if same_text(name, "chinese-simplified") {
        Some(Language::SimplifiedChinese)
    } else if same_text(name, "chinese-traditional") {
        Some(Language::TraditionalChinese)
    } else {
        None
    }
}

/// Reads the name of a language, in letters of either case.
pub fn parse_language(lang: &str) -> (r: Result<Language, String>)
    ensures
        match r {
            Ok(language) => language_named(lowercase(lang@)) == Some(language),
            Err(message) => {
                &&& language_named(lowercase(lang@)) is None
                &&& message@ == "Unknown language '"@ + lang@ + "'"@
            },
        },
        match r {
            Ok(Language::English) => lowercase(lang@) == "english"@,
            Ok(Language::Portuguese) => lowercase(lang@) == "portuguese"@,
            Ok(Language::Spanish) => lowercase(lang@) == "spanish"@,
            Ok(Language::French) => lowercase(lang@) == "french"@,
            Ok(Language::Italian) => lowercase(lang@) == "italian"@,
            Ok(Language::Czech) => lowercase(lang@) == "czech"@,
            Ok(Language::Korean) => lowercase(lang@) == "korean"@,
            Ok(Language::Japanese) => lowercase(lang@) == "japanese"@,
            Ok(Language::SimplifiedChinese) => lowercase(lang@) == "chinese-simplified"@,
            Ok(Language::TraditionalChinese) => lowercase(lang@) == "chinese-traditional"@,
            Err(_) => {
                &&& lowercase(lang@) != "english"@
                &&& lowercase(lang@) != "portuguese"@
                &&& lowercase(lang@) != "spanish"@
                &&& lowercase(lang@) != "french"@
                &&& lowercase(lang@) != "italian"@
                &&& lowercase(lang@) != "czech"@
                &&& lowercase(lang@) != "korean"@
                &&& lowercase(lang@) != "japanese"@
                &&& lowercase(lang@) != "chinese-simplified"@
                &&& lowercase(lang@) != "chinese-traditional"@
            },
        },
        is_ascii_text(lang@) ==> language_named(ascii_lower_text(lang@)) == (match r {
            Ok(language) => Some(language),
            Err(_) => None,
        }),
{
    let name = lang.to_lowercase();
    match find_language(name.as_str()) {
        Some(language) => Ok(language),
        None => Err(concat3("Unknown language '", lang, "'")),
    }
}

/// The words that `bip39::Language::words_by_prefix` gives for a language and a prefix.
pub uninterp spec fn words_with_prefix(language: Language, prefix: Seq<char>) -> Seq<Seq<char>>;

/// `bip39::Language::words_by_prefix` gives the words of the language's list that start with the
/// prefix, and always the same ones. The empty prefix gives the whole list, 2048 words.
#[verifier::external_body]
fn words_by_prefix(language: Language, prefix: &str) -> (r: Vec<String>)
    ensures
        texts(r@) == words_with_prefix(language, prefix@),
        prefix@.len() == 0 ==> r@.len() == 2048,
{
    let lang = match language {
        Language::English => Lang::English,
        Language::Portuguese => Lang::Portuguese,
        Language::Spanish => Lang::Spanish,
        Language::French => Lang::French,
        Language::Italian => Lang::Italian,
        Language::Czech => Lang::Czech,
        Language::Korean => Lang::Korean,
        Language::Japanese => Lang::Japanese,
        Language::SimplifiedChinese => Lang::SimplifiedChinese,
        Language::TraditionalChinese => Lang::TraditionalChinese,
    };
    lang.words_by_prefix(prefix).iter().map(|w| w.to_string()).collect()
}

/// The words of a language, in the order of its list.
pub open spec fn language_words(language: Language) -> Seq<Seq<char>> {
    words_with_prefix(language, ""@)
}

/// Gives the word list of a language.
pub fn word_list(language: Language) -> (r: Vec<String>)
    ensures
        texts(r@) == language_words(language),
        texts(r@) == words_with_prefix(language, ""@),
        r@.len() == 2048,
{
    proof {
        reveal_strlit("");
    }
    words_by_prefix(language, "")
}

} // verus!
