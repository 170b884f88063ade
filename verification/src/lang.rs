use vstd::prelude::*;
use vstd::string::StringExecFns;

verus! {

/// Reading direction of a language: left-to-right or right-to-left.
#[derive(Clone, Copy, Debug, PartialEq, Eq, Structural)]
pub enum Direction {
    Ltr,
    Rtl,
}

/// The IETF language code that each numeric platform language id maps to;
/// unknown ids map to "en".
pub open spec fn spec_lang_code(lang_id: u64) -> Seq<char> {
    if lang_id == 1 { "en"@ } else if lang_id == 2 { "fr"@ } else if lang_id == 3 { "it"@ } else if lang_id == 4 { "de"@ } else if lang_id == 5 { "es"@ } else if lang_id == 6 { "pt-PT"@ } else if lang_id == 7 { "ru"@ } else if lang_id == 8 { "zh-Hant"@ } else if lang_id == 9 { "ja"@ } else if lang_id == 10 { "ko"@ } else if lang_id == 11 { "en"@ } else if lang_id == 12 { "zh-Hans"@ } else if lang_id == 13 { "nl"@ } else if lang_id == 14 { "pl"@ } else if lang_id == 15 { "ro"@ } else if lang_id == 16 { "ar"@ } else if lang_id == 17 { "he"@ } else if lang_id == 18 { "fil"@ } else if lang_id == 19 { "vi"@ } else if lang_id == 20 { "id"@ } else if lang_id == 21 { "hi"@ } else if lang_id == 22 { "ms"@ } else if lang_id == 23 { "tr"@ } else if lang_id == 24 { "cs"@ } else if lang_id == 25 { "ml"@ } else if lang_id == 26 { "sv"@ } else if lang_id == 27 { "no"@ } else if lang_id == 28 { "hu"@ } else if lang_id == 29 { "da"@ } else if lang_id == 30 { "el"@ } else if lang_id == 31 { "fa"@ } else if lang_id == 32 { "th"@ } else if lang_id == 33 { "is"@ } else if lang_id == 34 { "fi"@ } else if lang_id == 35 { "et"@ } else if lang_id == 36 { "lv"@ } else if lang_id == 37 { "lt"@ } else if lang_id == 38 { "ca"@ } else if lang_id == 39 { "bs"@ } else if lang_id == 40 { "sr"@ } else if lang_id == 41 { "hr"@ } else if lang_id == 42 { "sl"@ } else if lang_id == 43 { "bg"@ } else if lang_id == 44 { "sk"@ } else if lang_id == 45 { "be"@ } else if lang_id == 46 { "uk"@ } else if lang_id == 47 { "bn"@ } else if lang_id == 48 { "ur"@ } else if lang_id == 49 { "ta"@ } else if lang_id == 50 { "sw"@ } else if lang_id == 51 { "af"@ } else if lang_id == 52 { "pt-BR"@ } else if lang_id == 53 { "gu"@ } else if lang_id == 54 { "or"@ } else if lang_id == 55 { "pa"@ } else if lang_id == 56 { "as"@ } else if lang_id == 57 { "mr"@ } else { "en"@ }
}

/// The reading direction of a numeric platform language id: Arabic, Hebrew,
/// Persian and Urdu are right-to-left, everything else left-to-right.
pub open spec fn spec_direction_for_lang_id(lang_id: u64) -> Direction {
    if lang_id == 16 || lang_id == 17 || lang_id == 31 || lang_id == 48 {
        Direction::Rtl
    } else {
        Direction::Ltr
    }
}

/// The reading direction of an IETF language code: "ar", "he", "fa" and "ur"
/// are right-to-left, everything else left-to-right.
pub open spec fn spec_direction_for_code(code: Seq<char>) -> Direction {
    if code == "ar"@ || code == "he"@ || code == "fa"@ || code == "ur"@ {
        Direction::Rtl
    } else {
        Direction::Ltr
    }
}

/// Maps the platform's numeric language id to a standard IETF language code.
/// Defaults to "en" for unknown ids.
pub fn get_lang_code(lang_id: u64) -> (r: &'static str)
    ensures
        r@ == spec_lang_code(lang_id),
{
    if lang_id == 1 { "en" } else if lang_id == 2 { "fr" } else if lang_id == 3 { "it" } else if lang_id == 4 { "de" } else if lang_id == 5 { "es" } else if lang_id == 6 { "pt-PT" } else if lang_id == 7 { "ru" } else if lang_id == 8 { "zh-Hant" } else if lang_id == 9 { "ja" } else if lang_id == 10 { "ko" } else if lang_id == 11 { "en" } else if lang_id == 12 { "zh-Hans" } else if lang_id == 13 { "nl" } else if lang_id == 14 { "pl" } else if lang_id == 15 { "ro" } else if lang_id == 16 { "ar" } else if lang_id == 17 { "he" } else if lang_id == 18 { "fil" } else if lang_id == 19 { "vi" } else if lang_id == 20 { "id" } else if lang_id == 21 { "hi" } else if lang_id == 22 { "ms" } else if lang_id == 23 { "tr" } else if lang_id == 24 { "cs" } else if lang_id == 25 { "ml" } else if lang_id == 26 { "sv" } else if lang_id == 27 { "no" } else if lang_id == 28 { "hu" } else if lang_id == 29 { "da" } else if lang_id == 30 { "el" } else if lang_id == 31 { "fa" } else if lang_id == 32 { "th" } else if lang_id == 33 { "is" } else if lang_id == 34 { "fi" } else if lang_id == 35 { "et" } else if lang_id == 36 { "lv" } else if lang_id == 37 { "lt" } else if lang_id == 38 { "ca" } else if lang_id == 39 { "bs" } else if lang_id == 40 { "sr" } else if lang_id == 41 { "hr" } else if lang_id == 42 { "sl" } else if lang_id == 43 { "bg" } else if lang_id == 44 { "sk" } else if lang_id == 45 { "be" } else if lang_id == 46 { "uk" } else if lang_id == 47 { "bn" } else if lang_id == 48 { "ur" } else if lang_id == 49 { "ta" } else if lang_id == 50 { "sw" } else if lang_id == 51 { "af" } else if lang_id == 52 { "pt-BR" } else if lang_id == 53 { "gu" } else if lang_id == 54 { "or" } else if lang_id == 55 { "pa" } else if lang_id == 56 { "as" } else if lang_id == 57 { "mr" } else { "en" }
}

/// Maps the platform's numeric language id to a text direction.
pub fn get_direction_for_lang_id(lang_id: u64) -> (r: Direction)
    ensures
        r == spec_direction_for_lang_id(lang_id),
{
    if lang_id == 16 || lang_id == 17 || lang_id == 31 || lang_id == 48 {
        Direction::Rtl
    } else {
        Direction::Ltr
    }
}

/// Maps an IETF language code to a text direction.
pub fn get_direction_for_lang_code(code: &str) -> (r: Direction)
    ensures
        r == spec_direction_for_code(code@),
{
    let c = code.to_owned();
    if c == String::from_str("ar") || c == String::from_str("he") || c == String::from_str("fa")
        || c == String::from_str("ur") {
        Direction::Rtl
    } else {
        Direction::Ltr
    }
}

} // verus!
