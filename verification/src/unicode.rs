//! The Unicode data this library stands on, and does not copy.
//!
//! Scripts come from `unicode-script`, the UTS #39 confusable and
//! mixed-script data from `unicode-security`, normalization from
//! `unicode-normalization`, and the general-category predicates from
//! `char`. Each table is thousands of entries that move with every
//! Unicode release, so each result is *named* here as a function of its
//! argument rather than restated: the library's contracts are exact over
//! these names, and the names say nothing the data does not.

use unicode_normalization::UnicodeNormalization;
use unicode_script::UnicodeScript;
use unicode_security::MixedScript;
use vstd::prelude::*;
use vstd::utf8::is_ascii_chars;

verus! {

/// The discriminant `unicode_script` gives `Script::Unknown`: the script
/// of every unassigned, private-use, noncharacter and surrogate codepoint.
pub const SCRIPT_UNKNOWN: u8 = 0xFF;

/// The discriminant of `Script::Common`.
pub const SCRIPT_COMMON: u8 = 0xFE;

/// The discriminant of `Script::Inherited`.
pub const SCRIPT_INHERITED: u8 = 0xFD;

/// The discriminant of `Script::Latin`.
pub const SCRIPT_LATIN: u8 = 74;

/// The UAX #24 script of a character, as the discriminant of
/// `unicode_script::Script`.
pub uninterp spec fn script_of(c: char) -> u8;

/// The full UAX #24 name of the script with this discriminant.
pub uninterp spec fn script_name(script: u8) -> Seq<char>;

/// The script whose full name is exactly this text, if any.
pub uninterp spec fn script_by_full_name(name: Seq<char>) -> Option<u8>;

/// The script whose four-letter ISO 15924 tag is exactly this text, if any.
pub uninterp spec fn script_by_short_name(tag: Seq<char>) -> Option<u8>;

/// Whether a string is single-script under UTS #39: its resolved,
/// augmented script set is not empty.
pub uninterp spec fn single_script(word: Seq<char>) -> bool;

/// Whether UTS #39 lists a character as potentially confusable across
/// scripts.
pub uninterp spec fn mixed_script_confusable(c: char) -> bool;

/// The UTS #39 skeleton of a one-character string.
pub uninterp spec fn skeleton_chars(c: char) -> Seq<char>;

/// The Normalization Form C of a sequence of scalar values.
pub uninterp spec fn nfc(cs: Seq<char>) -> Seq<char>;

/// Whether a sequence of scalar values is in Normalization Form D.
pub uninterp spec fn decomposed(cs: Seq<char>) -> bool;

/// The Normalization Form KC of a single character.
pub uninterp spec fn nfkc_char(c: char) -> Seq<char>;

/// The canonical combining class of a character.
pub uninterp spec fn combining_class(c: char) -> u8;

/// The Unicode `Alphabetic` property.
pub uninterp spec fn alphabetic(c: char) -> bool;

/// The Unicode `Numeric` general categories (`Nd`, `Nl`, `No`).
pub uninterp spec fn numeric(c: char) -> bool;

/// The full uppercase mapping of a character.
pub uninterp spec fn uppercase(c: char) -> Seq<char>;

/// The lowercase mapping of a string.
pub uninterp spec fn lowercase(s: Seq<char>) -> Seq<char>;

/// Lower-casing as it acts on ASCII: `A` to `Z` become `a` to `z`, and
/// every other character stays.
pub open spec fn ascii_lowercase(s: Seq<char>) -> Seq<char> {
    s.map_values(
        |c: char|
            if 0x41 <= (c as u32) <= 0x5A {
                (((c as u32) + 32) as u32) as char
            } else {
                c
            },
    )
}

/// `UnicodeScript::script`: the script of `c`, as its discriminant.
#[verifier::external_body]
pub(crate) fn char_script(c: char) -> (r: u8)
    ensures
        r == script_of(c),
{
    c.script() as u8
}

/// `Script::full_name` of the script of `c`. The claim beyond the name is
/// that the name is ASCII, which every entry of the crate's name table is.
#[verifier::external_body]
pub(crate) fn char_script_name(c: char) -> (r: &'static str)
    ensures
        r@ == script_name(script_of(c)),
        is_ascii_chars(r@),
{
    c.script().full_name()
}

/// `Script::from_full_name`, as a discriminant.
#[verifier::external_body]
pub(crate) fn script_from_full_name(name: &str) -> (r: Option<u8>)
    ensures
        r == script_by_full_name(name@),
{
    unicode_script::Script::from_full_name(name).map(|script| script as u8)
}

/// `Script::from_short_name`, as a discriminant.
#[verifier::external_body]
pub(crate) fn script_from_short_name(tag: &str) -> (r: Option<u8>)
    ensures
        r == script_by_short_name(tag@),
{
    unicode_script::Script::from_short_name(tag).map(|script| script as u8)
}

/// `unicode_script::UNICODE_VERSION`, which the crate's source sets to
/// 18.0.0.
#[verifier::external_body]
pub(crate) fn unicode_version() -> (r: (u64, u64, u64))
    ensures
        r == (18u64, 0u64, 0u64),
{
    unicode_script::UNICODE_VERSION
}

/// `MixedScript::is_single_script` on the string these characters spell.
#[verifier::external_body]
pub(crate) fn is_single_script(word: &[char]) -> (r: bool)
    ensures
        r == single_script(word@),
{
    let text: String = word.iter().collect();
    text.as_str().is_single_script()
}

/// `unicode_security::is_potential_mixed_script_confusable_char`.
#[verifier::external_body]
pub(crate) fn is_mixed_script_confusable(c: char) -> (r: bool)
    ensures
        r == mixed_script_confusable(c),
{
    unicode_security::is_potential_mixed_script_confusable_char(c)
}

/// `unicode_security::skeleton` of the one-character string `c`.
#[verifier::external_body]
pub(crate) fn skeleton_of(c: char) -> (r: Vec<char>)
    ensures
        r@ == skeleton_chars(c),
{
    let mut buffer = [0u8; 4];
    unicode_security::skeleton(c.encode_utf8(&mut buffer)).collect()
}

/// `UnicodeNormalization::nfc` over these characters, collected.
#[verifier::external_body]
pub(crate) fn nfc_of(cs: &[char]) -> (r: Vec<char>)
    ensures
        r@ == nfc(cs@),
{
    cs.iter().copied().nfc().collect()
}

/// `unicode_normalization::is_nfc`, which the crate documents as the
/// authoritative check: its answer is whether the text equals its NFC.
#[verifier::external_body]
pub(crate) fn is_nfc(cs: &[char]) -> (r: bool)
    ensures
        r == (nfc(cs@) == cs@),
{
    let text: String = cs.iter().collect();
    unicode_normalization::is_nfc(&text)
}

/// `unicode_normalization::is_nfd`.
#[verifier::external_body]
pub(crate) fn is_nfd(cs: &[char]) -> (r: bool)
    ensures
        r == decomposed(cs@),
{
    let text: String = cs.iter().collect();
    unicode_normalization::is_nfd(&text)
}

/// `UnicodeNormalization::nfkc` of a single character, collected.
#[verifier::external_body]
pub(crate) fn nfkc_of_char(c: char) -> (r: Vec<char>)
    ensures
        r@ == nfkc_char(c),
{
    std::iter::once(c).nfkc().collect()
}

/// `unicode_normalization::char::canonical_combining_class`.
#[verifier::external_body]
pub(crate) fn canonical_combining_class(c: char) -> (r: u8)
    ensures
        r == combining_class(c),
{
    unicode_normalization::char::canonical_combining_class(c)
}

/// `char::is_alphabetic`.
#[verifier::external_body]
pub(crate) fn is_alphabetic(c: char) -> (r: bool)
    ensures
        r == alphabetic(c),
{
    c.is_alphabetic()
}

/// `char::is_numeric`.
#[verifier::external_body]
pub(crate) fn is_numeric(c: char) -> (r: bool)
    ensures
        r == numeric(c),
{
    c.is_numeric()
}

/// `char::is_alphanumeric`, which std documents as exactly
/// `is_alphabetic() || is_numeric()`.
#[verifier::external_body]
pub(crate) fn is_alphanumeric(c: char) -> (r: bool)
    ensures
        r == (alphabetic(c) || numeric(c)),
{
    c.is_alphanumeric()
}

/// `char::to_uppercase`, collected.
#[verifier::external_body]
pub(crate) fn to_uppercase(c: char) -> (r: Vec<char>)
    ensures
        r@ == uppercase(c),
{
    c.to_uppercase().collect()
}

/// `str::to_lowercase` of the string these characters spell. Beyond the
/// name, the claim is how it acts on ASCII text: `A` to `Z` become `a` to
/// `z` and every other ASCII character stays, as the Unicode lowercase
/// mapping that std documents it by does.
#[verifier::external_body]
pub(crate) fn to_lowercase(cs: &[char]) -> (r: Vec<char>)
    ensures
        r@ == lowercase(cs@),
        is_ascii_chars(cs@) ==> r@ == ascii_lowercase(cs@),
{
    let text: String = cs.iter().collect();
    text.to_lowercase().chars().collect()
}

} // verus!
