//! Unicode primitives used by the tokenizer: normalization, case mapping and
//! word boundaries from ICU4X, character properties from ICU4X, the standard
//! library and `unicode-normalization`.
//!
//! Each is a pure function of its argument with data compiled into the binary.

use icu_casemap::CaseMapperBorrowed;
use icu_locale_core::LanguageIdentifier;
use icu_normalizer::ComposingNormalizerBorrowed;
use icu_properties::props::{
    Alphabetic, DefaultIgnorableCodePoint, GeneralCategory, GeneralCategoryGroup, Ideographic,
    Script,
};
use icu_properties::{CodePointMapData, CodePointSetData};
use icu_segmenter::options::WordBreakInvariantOptions;
use icu_segmenter::WordSegmenter;
use vstd::prelude::*;
use vstd::string::*;

verus! {

/// The NFKC form of a text.
pub uninterp spec fn nfkc(text: Seq<char>) -> Seq<char>;

/// The locale-neutral lowercase form of a text.
pub uninterp spec fn lowered(text: Seq<char>) -> Seq<char>;

/// The byte offsets of a text's word boundaries.
pub uninterp spec fn word_breaks(text: Seq<char>) -> Seq<usize>;

/// A default-ignorable character.
pub uninterp spec fn ignorable(c: char) -> bool;

/// An ideographic character.
pub uninterp spec fn ideographic(c: char) -> bool;

/// A character of the Hiragana script.
pub uninterp spec fn hiragana(c: char) -> bool;

/// A combining mark.
pub uninterp spec fn mark(c: char) -> bool;

/// A character with the Alphabetic property.
pub uninterp spec fn alphabetic_property(c: char) -> bool;

/// A letter or a number, by the standard library's tables.
pub uninterp spec fn alphanumeric(c: char) -> bool;

/// A letter, by the standard library's tables.
pub uninterp spec fn alphabetic(c: char) -> bool;

/// The lowercase mapping of one character, by the standard library's tables.
pub uninterp spec fn lowercase_char(c: char) -> Seq<char>;

/// The canonical decomposition of one character.
pub uninterp spec fn decomposed(c: char) -> Seq<char>;

/// The canonical combining class of one character.
pub uninterp spec fn combining_class(c: char) -> u8;

/// The NFKC form of `text`.
///
/// Calls `ComposingNormalizerBorrowed::new_nfkc().normalize`.
#[verifier::external_body]
pub(crate) fn normalize(text: &str) -> (r: String)
    ensures
        r@ == nfkc(text@),
{
    ComposingNormalizerBorrowed::new_nfkc().normalize(text).into_owned()
}

/// The lowercase form of `text` in the root locale.
///
/// Calls `CaseMapperBorrowed::lowercase_to_string`.
#[verifier::external_body]
pub(crate) fn lowercase(text: &str) -> (r: String)
    ensures
        r@ == lowered(text@),
{
    CaseMapperBorrowed::new().lowercase_to_string(text, &LanguageIdentifier::UNKNOWN).into_owned()
}

/// The word boundaries of `text`, as byte offsets in the order the segmenter
/// yields them.
///
/// Calls `WordSegmenter::new_auto` and `segment_str`.
#[verifier::external_body]
pub(crate) fn word_boundaries(text: &str) -> (r: Vec<usize>)
    ensures
        r@ == word_breaks(text@),
{
    WordSegmenter::new_auto(WordBreakInvariantOptions::default()).segment_str(text).collect()
}

/// Calls `CodePointSetData::new::<DefaultIgnorableCodePoint>().contains`: the
/// character's Default_Ignorable_Code_Point property.
#[verifier::external_body]
pub(crate) fn is_default_ignorable(c: char) -> (r: bool)
    ensures
        r == ignorable(c),
{
    CodePointSetData::new::<DefaultIgnorableCodePoint>().contains(c)
}

/// Calls `CodePointSetData::new::<Ideographic>().contains`: the character's
/// Ideographic property.
#[verifier::external_body]
pub(crate) fn is_ideographic(c: char) -> (r: bool)
    ensures
        r == ideographic(c),
{
    CodePointSetData::new::<Ideographic>().contains(c)
}

/// Calls `CodePointMapData::<Script>::new().get`: whether the character's
/// script is Hiragana.
#[verifier::external_body]
pub(crate) fn is_hiragana(c: char) -> (r: bool)
    ensures
        r == hiragana(c),
{
    CodePointMapData::<Script>::new().get(c) == Script::Hiragana
}

/// Calls `CodePointMapData::<GeneralCategory>::new().get`: whether the
/// character's general category is one of the marks.
#[verifier::external_body]
pub(crate) fn is_mark(c: char) -> (r: bool)
    ensures
        r == mark(c),
{
    GeneralCategoryGroup::Mark.contains(CodePointMapData::<GeneralCategory>::new().get(c))
}

/// Calls `CodePointSetData::new::<Alphabetic>().contains`: the character's
/// Alphabetic property.
#[verifier::external_body]
pub(crate) fn has_alphabetic_property(c: char) -> (r: bool)
    ensures
        r == alphabetic_property(c),
{
    CodePointSetData::new::<Alphabetic>().contains(c)
}

/// Calls `char::is_alphanumeric`.
#[verifier::external_body]
pub(crate) fn is_alphanumeric(c: char) -> (r: bool)
    ensures
        r == alphanumeric(c),
{
    c.is_alphanumeric()
}

/// Calls `char::is_alphabetic`.
#[verifier::external_body]
pub(crate) fn is_alphabetic(c: char) -> (r: bool)
    ensures
        r == alphabetic(c),
{
    c.is_alphabetic()
}

/// The lowercase mapping of `c`, one or more characters.
///
/// Calls `char::to_lowercase`.
#[verifier::external_body]
pub(crate) fn to_lowercase(c: char) -> (r: Vec<char>)
    ensures
        r@ == lowercase_char(c),
{
    c.to_lowercase().collect()
}

/// The canonical decomposition of `c`, in the order it is emitted.
///
/// Calls `unicode_normalization::char::decompose_canonical`.
#[verifier::external_body]
pub(crate) fn decompose_canonical(c: char) -> (r: Vec<char>)
    ensures
        r@ == decomposed(c),
{
    let mut out: Vec<char> = Vec::new();
    unicode_normalization::char::decompose_canonical(c, |d| out.push(d));
    out
}

/// Calls `unicode_normalization::char::canonical_combining_class`.
#[verifier::external_body]
pub(crate) fn canonical_combining_class(c: char) -> (r: u8)
    ensures
        r == combining_class(c),
{
    unicode_normalization::char::canonical_combining_class(c)
}

/// A character of the CJK bigram policy: an ideograph or a Hiragana character.
pub open spec fn cjk(c: char) -> bool {
    ideographic(c) || hiragana(c)
}

/// Whether a character belongs to the CJK bigram policy.
pub fn is_cjk_unigram(c: char) -> (r: bool)
    ensures
        r == cjk(c),
{
    is_ideographic(c) || is_hiragana(c)
}

/// An ASCII letter or digit.
pub open spec fn ascii_alphanumeric(c: char) -> bool {
    ('a' <= c && c <= 'z') || ('A' <= c && c <= 'Z') || ('0' <= c && c <= '9')
}

/// Whether a character is an ASCII letter or digit.
pub fn is_ascii_alphanumeric(c: char) -> (r: bool)
    ensures
        r == ascii_alphanumeric(c),
{
    ('a' <= c && c <= 'z') || ('A' <= c && c <= 'Z') || ('0' <= c && c <= '9')
}

} // verus!
